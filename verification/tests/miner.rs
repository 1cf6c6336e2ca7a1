use infisearch::chinese::{new_with_options, Tokenizer};
use infisearch::language::{InfiLanguageConfig, InfiLanguageConfigOpts};
use infisearch::miner::{
    DocIdAndFieldLengthsComparator, DocField, FieldInfo, FieldInfos, TermDoc, TermDocComparator, WorkerMiner,
    WorkerMinerDocInfo, Zone, DEFAULT_ZONE_SEPARATION,
};

fn tokenizer() -> Tokenizer {
    new_with_options(&InfiLanguageConfig {
        lang: "chinese".to_owned(),
        options: InfiLanguageConfigOpts::default(),
    })
}

fn field(name: &str, id: usize, store_text: bool, is_scored: bool, enum_id: Option<usize>, i64_id: Option<usize>) -> FieldInfo {
    FieldInfo {
        name: name.to_owned(),
        escaped_name: name.to_owned(),
        id,
        enum_id,
        i64_id,
        store_text,
        is_scored,
    }
}

fn field_infos() -> FieldInfos {
    FieldInfos {
        field_infos_by_name: vec![
            field("title", 0, true, true, None, None),
            field("body", 1, false, true, None, None),
            field("tag", 0, false, false, Some(0), None),
            field("price", 0, false, false, None, Some(0)),
        ],
        num_scored_fields: 2,
        num_enum_fields: 1,
        num_i64_fields: 1,
    }
}

fn zone(name: &str, text: &str) -> Zone {
    Zone { field_name: name.to_owned(), field_text: text.to_owned(), separation: DEFAULT_ZONE_SEPARATION }
}

fn postings<'a>(miner: &'a WorkerMiner<Tokenizer>, term: &str) -> &'a Vec<TermDoc> {
    &miner.terms.iter().find(|(t, _)| t == term).expect("term indexed").1
}

fn fields_of(td: &TermDoc) -> Vec<(u32, Vec<u32>)> {
    td.doc_fields.iter().map(|f| (f.field_tf, f.positions.clone())).collect()
}

fn index_sample(miner: &mut WorkerMiner<Tokenizer>) {
    miner.index_doc(
        0,
        vec![
            zone("title", "Hello world"),
            zone("body", "Hello again. Bye"),
            zone("tag", "red"),
            zone("price", "5"),
            zone("unknown", "ignored text"),
        ],
        vec![None, None, None, Some(5), None],
    );
}

#[test]
fn index_doc_counts_terms_per_field_with_positions() {
    let mut miner = WorkerMiner::new(field_infos(), true, 4, tokenizer());
    index_sample(&mut miner);

    // title: hello@0 world@1, sentence end @2, separation 10 -> body starts at 13
    let hello = postings(&miner, "hello");
    assert_eq!(hello.len(), 1);
    assert_eq!(hello[0].doc_id, 0);
    assert_eq!(fields_of(&hello[0]), vec![(1, vec![0]), (1, vec![13])]);

    let again = postings(&miner, "again");
    assert_eq!(fields_of(&again[0]), vec![(0, vec![]), (1, vec![14])]);
    let bye = postings(&miner, "bye");
    assert_eq!(fields_of(&bye[0]), vec![(0, vec![]), (1, vec![16])]);
    assert!(miner.terms.iter().all(|(t, _)| t != "ignored" && t != "red"));

    assert_eq!(miner.doc_infos.len(), 1);
    let info: &WorkerMinerDocInfo = &miner.doc_infos[0];
    assert_eq!(info.doc_id, 0);
    assert_eq!(info.field_lengths, vec![2, 3]);
    assert_eq!(info.doc_enums, vec!["red".to_owned()]);
    assert_eq!(info.doc_nums, vec![Some(5)]);
    assert_eq!(info.field_texts, b"[[\"title\",\"Hello world\"]]".to_vec());
}

#[test]
fn later_documents_append_postings_in_order() {
    let mut miner = WorkerMiner::new(field_infos(), false, 4, tokenizer());
    index_sample(&mut miner);
    miner.index_doc(3, vec![zone("body", "hello hello")], vec![None]);

    let hello = postings(&miner, "hello");
    assert_eq!(hello.len(), 2);
    assert_eq!(hello[1].doc_id, 3);
    // without positions only the frequencies are kept
    assert_eq!(fields_of(&hello[0]), vec![(1, vec![]), (1, vec![])]);
    assert_eq!(fields_of(&hello[1]), vec![(0, vec![]), (2, vec![])]);
    assert_eq!(miner.doc_infos[1].field_texts, b"[]".to_vec());
    assert_eq!(miner.doc_infos[1].doc_nums, vec![None]);
    assert_eq!(miner.doc_infos[1].doc_enums, vec![String::new()]);

    let results = miner.get_results();
    assert_eq!(results.doc_infos.len(), 2);
    assert!(!results.terms.is_empty());
    assert!(miner.terms.is_empty());
    assert!(miner.doc_infos.is_empty());
}

#[test]
fn first_enum_and_number_values_win() {
    let mut miner = WorkerMiner::new(field_infos(), true, 1, tokenizer());
    miner.index_doc(
        1,
        vec![zone("tag", "blue"), zone("tag", "green"), zone("price", "7"), zone("price", "8")],
        vec![None, None, Some(7), Some(8)],
    );
    assert_eq!(miner.doc_infos[0].doc_enums, vec!["blue".to_owned()]);
    assert_eq!(miner.doc_infos[0].doc_nums, vec![Some(7)]);
}

#[test]
fn stored_fields_are_escaped_and_separated() {
    let mut infos = field_infos();
    infos.field_infos_by_name[1].store_text = true;
    let mut miner = WorkerMiner::new(infos, true, 1, tokenizer());
    miner.index_doc(0, vec![zone("title", "a \"q\""), zone("body", "x\ny")], vec![None, None]);
    assert_eq!(
        miner.doc_infos[0].field_texts,
        b"[[\"title\",\"a \\\"q\\\"\"],[\"body\",\"x\\ny\"]]".to_vec()
    );
}

#[test]
fn comparators_order_by_reversed_doc_id() {
    let td = |id: u32| TermDoc { doc_id: id, doc_fields: vec![DocField::default()] };
    let a = TermDocComparator(td(1), vec![]);
    let b = TermDocComparator(td(2), vec![td(5)]);
    assert_eq!(a.heap_cmp(&b), std::cmp::Ordering::Greater);
    assert_eq!(b.heap_cmp(&a), std::cmp::Ordering::Less);
    assert!(a.same_doc(&TermDocComparator(td(1), vec![])));

    let info = |id: u32| WorkerMinerDocInfo {
        doc_id: id,
        doc_enums: vec![],
        doc_nums: vec![],
        field_lengths: vec![],
        field_texts: vec![],
    };
    let c = DocIdAndFieldLengthsComparator(info(4), vec![]);
    let d = DocIdAndFieldLengthsComparator(info(9), vec![]);
    assert_eq!(c.heap_cmp(&d), std::cmp::Ordering::Greater);
    assert_eq!(c.heap_cmp(&c), std::cmp::Ordering::Equal);
    assert!(!c.same_doc(&d));
}

#[test]
fn doc_field_clone_and_default() {
    let f = DocField { field_tf: 3, positions: vec![1, 2, 3] };
    let g = f.clone();
    assert_eq!(g.field_tf, 3);
    assert_eq!(g.positions, vec![1, 2, 3]);
    let d = DocField::default();
    assert_eq!(d.field_tf, 0);
    assert!(d.positions.is_empty());
}
