use infisearch::chinese::{new_with_options, Tokenizer};
use infisearch::dictionary::{Dictionary, TermInfo};
use infisearch::language::{InfiLanguageConfig, InfiLanguageConfigOpts};
use infisearch::query_parser::{parse_query, QueryPart, QueryPartType};

#[derive(Debug, PartialEq, Clone)]
struct P {
    is_mandatory: bool,
    is_subtracted: bool,
    is_inverted: bool,
    is_corrected: bool,
    auto_suffix_wildcard: bool,
    suffix_wildcard: bool,
    original_term: Option<String>,
    term: Option<String>,
    terms_searched: Option<Vec<String>>,
    part_type: QueryPartType,
    field_name: Option<String>,
    children: Option<Vec<P>>,
}

fn conv(p: &QueryPart) -> P {
    P {
        is_mandatory: p.is_mandatory,
        is_subtracted: p.is_subtracted,
        is_inverted: p.is_inverted,
        is_corrected: p.is_corrected,
        auto_suffix_wildcard: p.auto_suffix_wildcard,
        suffix_wildcard: p.suffix_wildcard,
        original_term: p.original_term.clone(),
        term: p.term.clone(),
        terms_searched: p.terms_searched.clone(),
        part_type: p.part_type,
        field_name: p.field_name.clone(),
        children: p.children.as_ref().map(|c| c.iter().map(conv).collect()),
    }
}

impl P {
    fn no_expand(mut self) -> P {
        self.auto_suffix_wildcard = false;
        self
    }
    fn mandatory(mut self) -> P {
        self.is_mandatory = true;
        self
    }
    fn subtracted(mut self) -> P {
        self.is_subtracted = true;
        self
    }
    fn negated(mut self) -> P {
        self.is_inverted = true;
        self
    }
    fn no_term(mut self) -> P {
        self.term = None;
        self
    }
    fn with_field(mut self, f: &str) -> P {
        self.field_name = Some(f.to_owned());
        self
    }
    fn with_suffix(mut self) -> P {
        self.suffix_wildcard = true;
        self
    }
}

fn get_term(term: &str) -> P {
    P {
        is_mandatory: false,
        is_subtracted: false,
        is_inverted: false,
        is_corrected: false,
        auto_suffix_wildcard: true,
        suffix_wildcard: false,
        original_term: Some(term.to_owned()),
        term: Some(term.to_owned()),
        terms_searched: Some(vec![term.to_owned()]),
        part_type: QueryPartType::Term,
        field_name: None,
        children: None,
    }
}

fn lorem() -> P {
    get_term("lorem")
}

fn ipsum() -> P {
    get_term("ipsum")
}

fn group(kind: QueryPartType, children: Vec<P>) -> P {
    P {
        is_mandatory: false,
        is_subtracted: false,
        is_inverted: false,
        is_corrected: false,
        auto_suffix_wildcard: false,
        suffix_wildcard: false,
        original_term: None,
        term: None,
        terms_searched: None,
        part_type: kind,
        field_name: None,
        children: Some(children),
    }
}

fn wrap_in_parentheses(children: Vec<P>) -> P {
    group(QueryPartType::Bracket, children)
}

fn get_phrase(children: Vec<P>) -> P {
    group(QueryPartType::Phrase, children.into_iter().map(|c| c.no_expand()).collect())
}

fn dictionary() -> Dictionary {
    let mut terms = vec![
        "lorem", "ipsum", "for", "by", "and", "notipsum", "http", "localhost", "8080", "title", "body", "not",
        "invalidfield", "我", "他",
    ];
    terms.sort();
    Dictionary {
        term_infos: terms
            .into_iter()
            .map(|t| (t.to_owned(), TermInfo { doc_freq: 1, postings_file_name: 0, postings_file_offset: 65535 }))
            .collect(),
    }
}

fn tokenizer(ignore_stop_words: bool) -> Tokenizer {
    new_with_options(&InfiLanguageConfig {
        lang: "chinese".to_owned(),
        options: InfiLanguageConfigOpts {
            stop_words: None,
            ignore_stop_words: Some(ignore_stop_words),
            stemmer: None,
            max_term_len: None,
        },
    })
}

fn run(query: &str, with_positions: bool, ignore_stop_words: bool) -> Vec<P> {
    let fields = vec!["title".to_owned(), "body".to_owned(), "heading".to_owned()];
    parse_query(query.to_owned(), &tokenizer(ignore_stop_words), &fields, with_positions, &dictionary())
        .iter()
        .map(conv)
        .collect()
}

fn parse(query: &str) -> Vec<P> {
    run(query, true, false)
}

fn parse_zn(query: &str) -> Vec<P> {
    run(query, false, false)
}

fn parse_with_sw_removal(query: &str) -> Vec<P> {
    run(query, true, true)
}

impl P {
    fn with_corrected(mut self) -> P {
        self.is_corrected = true;
        self
    }
    fn with_original_term(mut self, t: &str) -> P {
        self.original_term = Some(t.to_owned());
        self
    }
    fn with_searched_terms(mut self, terms: Vec<&str>) -> P {
        self.terms_searched = Some(terms.into_iter().map(|t| t.to_owned()).collect());
        self
    }
}

fn parse_wo_pos(query: &str) -> Vec<P> {
    run(query, false, false)
}

#[test]
fn free_text_test() {
    assert_eq!(parse(""), vec![]);
    assert_eq!(parse(" "), vec![]);
    assert_eq!(parse("lorem ipsum"), vec![lorem(), ipsum()]);
    assert_eq!(parse("lorem ipsum "), vec![lorem().no_expand(), ipsum().no_expand()]);
    assert_eq!(parse_with_sw_removal("for by lorem and"), vec![
        get_term("for").no_term(), get_term("by").no_term(),
        lorem(), get_term("and").no_term(),
    ]);
}

#[test]
fn wildcard_suffix_test() {
    assert_eq!(parse("lorem* ipsum"), vec![lorem().with_suffix(), ipsum()]);
    assert_eq!(parse("lorem* ipsum "), vec![
        lorem().no_expand().with_suffix(),
        ipsum().no_expand(),
    ]);
    assert_eq!(parse("lorem ipsum*"), vec![
        lorem(),
        ipsum().with_suffix(),
    ]);
    assert_eq!(parse("lorem* ipsum* "), vec![
        lorem().no_expand().with_suffix(),
        ipsum().no_expand().with_suffix(),
    ]);
    assert_eq!(parse_with_sw_removal("for* by* lorem and"), vec![
        get_term("for").no_term().with_suffix(),
        get_term("by").no_term().with_suffix(),
        lorem(), get_term("and").no_term(),
    ]);
}

#[test]
fn boolean_test() {
    assert_eq!(parse("-"), vec![]);
    assert_eq!(parse(" -"), vec![]);
    assert_eq!(parse("+"), vec![]);
    assert_eq!(parse(" +"), vec![]);
    assert_eq!(parse("~"), vec![]);
    assert_eq!(parse(" ~"), vec![]);
    assert_eq!(parse("-lorem"), vec![lorem().subtracted()]);
    assert_eq!(parse(" -lorem"), vec![lorem().subtracted()]);
    assert_eq!(parse("+lorem"), vec![lorem().mandatory()]);
    assert_eq!(parse(" +lorem"), vec![lorem().mandatory()]);
    assert_eq!(parse("~lorem"), vec![lorem().negated()]);
    assert_eq!(parse(" ~lorem"), vec![lorem().negated()]);
    assert_eq!(parse("--lorem"), vec![lorem().subtracted()]);
    assert_eq!(parse(" --lorem"), vec![lorem().subtracted()]);
    assert_eq!(parse("++lorem"), vec![lorem().mandatory()]);
    assert_eq!(parse(" ++lorem"), vec![lorem().mandatory()]);
    assert_eq!(parse("~~lorem"), vec![lorem().negated()]);
    assert_eq!(parse(" ~~lorem"), vec![lorem().negated()]);

    // Whitespace sensitivity after
    assert_eq!(parse("- lorem"), vec![lorem()]);
    assert_eq!(parse(" - lorem"), vec![lorem()]);
    assert_eq!(parse("+ lorem"), vec![lorem()]);
    assert_eq!(parse(" + lorem"), vec![lorem()]);
    assert_eq!(parse("~ lorem"), vec![lorem()]);
    assert_eq!(parse(" ~ lorem"), vec![lorem()]);

    assert_eq!(parse(" +lorem ipsum"), vec![lorem().mandatory(), ipsum()]);
    assert_eq!(parse(" lorem +ipsum"), vec![lorem(), ipsum().mandatory()]);
    assert_eq!(parse("-lorem ipsum"), vec![lorem().subtracted(), ipsum()]);
    assert_eq!(parse("lorem -ipsum"), vec![lorem(), ipsum().subtracted()]);
    assert_eq!(parse(" ~lorem ipsum"), vec![lorem().negated(), ipsum()]);
    assert_eq!(parse(" lorem ~ipsum"), vec![lorem(), ipsum().negated()]);

    assert_eq!(parse("lorem-ipsum"), vec![lorem(), ipsum()]);
    assert_eq!(parse("lorem+ipsum"), vec![lorem(), ipsum()]);
    assert_eq!(parse("lorem~ipsum"), vec![lorem(), ipsum()]);
    assert_eq!(parse("lorem -ipsum"), vec![lorem(), ipsum().subtracted()]);
    assert_eq!(parse("lorem +ipsum"), vec![lorem(), ipsum().mandatory()]);
    assert_eq!(parse("lorem ~ipsum"), vec![lorem(), ipsum().negated()]);

    assert_eq!(parse("\"lorem\"-ipsum"), vec![get_phrase(vec![lorem().mandatory()]), ipsum().subtracted()]);
    assert_eq!(parse("(lorem)-ipsum"), vec![wrap_in_parentheses(vec![lorem()]), ipsum().subtracted()]);
    assert_eq!(parse("\"lorem\" -ipsum"), vec![get_phrase(vec![lorem().mandatory()]), ipsum().subtracted()]);
    assert_eq!(parse("(lorem) -ipsum"), vec![wrap_in_parentheses(vec![lorem()]), ipsum().subtracted()]);
    assert_eq!(parse("ipsum-\"lorem\""), vec![ipsum(), get_phrase(vec![lorem().mandatory()])]);
    assert_eq!(parse("ipsum-(lorem)"), vec![ipsum(), wrap_in_parentheses(vec![lorem()])]);
    assert_eq!(parse("ipsum -\"lorem\""), vec![ipsum(), get_phrase(vec![lorem().mandatory()]).subtracted()]);
    assert_eq!(parse("ipsum -(lorem)"), vec![ipsum(), wrap_in_parentheses(vec![lorem()]).subtracted()]);

    assert_eq!(parse(" +lorem +ipsum +lorem"), vec![
        lorem().mandatory(),
        ipsum().mandatory(),
        lorem().mandatory(),
    ]);
    assert_eq!(parse(" -lorem -ipsum -lorem"), vec![
        lorem().subtracted(),
        ipsum().subtracted(),
        lorem().subtracted(),
    ]);

    assert_eq!(parse(" +~lorem -ipsum -~lorem"), vec![
        lorem().negated().mandatory(),
        ipsum().subtracted(),
        lorem().negated().subtracted(),
    ]);

    assert_eq!(
        parse("+lorem +lorem -ipsum"),
        vec![
            lorem().mandatory(),
            lorem().mandatory(),
            ipsum().subtracted(),
        ]
    );

    assert_eq!(parse_with_sw_removal("~for +by"), vec![
        get_term("for").no_term().negated(), get_term("by").no_term().mandatory(),
    ]);
    assert_eq!(parse_with_sw_removal("-for +lorem"), vec![
        get_term("for").no_term().subtracted(), lorem().mandatory(),
    ]);
}

#[test]
fn phrase_test() {
    assert_eq!(parse_wo_pos("\"lorem ipsum\""), vec![get_term("lorem"), get_term("ipsum")]);

    assert_eq!(parse("\"lorem ipsum\""), vec![
        get_phrase(vec![lorem().mandatory(), ipsum().mandatory()]),
    ]);
    assert_eq!(
        parse("\"(lorem ipsum)\""),
        vec![get_phrase(vec![lorem().mandatory(), ipsum().mandatory()])],
    );
    assert_eq!(
        parse("lorem\"lorem ipsum\""),
        vec![lorem(), get_phrase(vec![lorem().mandatory(), ipsum().mandatory()])],
    );
    assert_eq!(
        parse("\"lorem ipsum\"lorem\"lorem ipsum\""),
        vec![
            get_phrase(vec![lorem().mandatory(), ipsum().mandatory()]),
            lorem(),
            get_phrase(vec![lorem().mandatory(), ipsum().mandatory()]),
        ]
    );
    assert_eq!(
        parse("\"lorem ipsum\" lorem \"lorem ipsum\""),
        vec![
            get_phrase(vec![lorem().mandatory(), ipsum().mandatory()]),
            lorem().no_expand(),
            get_phrase(vec![lorem().mandatory(), ipsum().mandatory()]),
        ]
    );
    assert_eq!(
        parse("\"lore ipsum\""),
        vec![
            get_phrase(vec![
                lorem().mandatory()
                    .with_corrected()
                    .with_original_term("lore")
                    .with_searched_terms(vec!["lore", "lorem"]),
                ipsum().mandatory(),
            ]),
        ],
    );
    assert_eq!(
        parse("\"nonexistentterm lore ipsum\""),
        vec![
            get_phrase(vec![
                get_term("nonexistentterm").no_term(),
                lorem().mandatory()
                    .with_corrected()
                    .with_original_term("lore")
                    .with_searched_terms(vec!["lore", "lorem"]),
                ipsum().mandatory(),
            ]),
        ]
    );
    assert_eq!(
        parse_with_sw_removal("\"for by lorem and\""),
        vec![
            get_phrase(vec![
                get_term("for").no_term(),
                get_term("by").no_term(),
                lorem().mandatory(),
                get_term("and").no_term(),
            ]),
        ]
    );
    assert_eq!(
        parse_with_sw_removal("\"lorem ipsum\""),
        vec![
            get_phrase(vec![lorem().mandatory(), ipsum().mandatory()]),
        ]
    );
}

#[test]
fn parentheses_test() {
    // assert_eq!(parse("(lorem ipsum"), vec![lorem(), ipsum()]);

    assert_eq!(parse("(lorem ipsum)"), vec![wrap_in_parentheses(vec![lorem(), ipsum()])]);
    assert_eq!(
        parse("(lorem ipsum )"),
        vec![wrap_in_parentheses(vec![lorem().no_expand(), ipsum().no_expand()])]
    );
    assert_eq!(
        parse("lorem(lorem ipsum)"),
        vec![lorem(), wrap_in_parentheses(vec![lorem(), ipsum()]),]
    );
    assert_eq!(
        parse("(lorem ipsum)lorem(lorem ipsum)"),
        vec![
            wrap_in_parentheses(vec![lorem(), ipsum()]),
            lorem(),
            wrap_in_parentheses(vec![lorem(), ipsum()]),
        ]
    );
    assert_eq!(
        parse("(lorem ipsum) lorem (lorem ipsum)"),
        vec![
            wrap_in_parentheses(vec![lorem(), ipsum()]),
            lorem().no_expand(),
            wrap_in_parentheses(vec![lorem(), ipsum()]),
        ]
    );
    assert_eq!(
        parse("(lorem ipsum) lorem (lorem ipsum)"),
        vec![
            wrap_in_parentheses(vec![lorem(), ipsum()]),
            lorem().no_expand(),
            wrap_in_parentheses(vec![lorem(), ipsum()]),
        ]
    );
    assert_eq!(
        parse("((lorem ipsum) lorem) (lorem(ipsum))"),
        vec![
            wrap_in_parentheses(vec![wrap_in_parentheses(vec![lorem(), ipsum()]), lorem(),]),
            wrap_in_parentheses(vec![lorem(), wrap_in_parentheses(vec![ipsum()]),]),
        ]
    );
    assert_eq!(
        parse("((lorem ipsum) lorem) (lorem()ipsum)"),
        vec![
            wrap_in_parentheses(vec![wrap_in_parentheses(vec![lorem(), ipsum()]), lorem(),]),
            wrap_in_parentheses(vec![lorem(), wrap_in_parentheses(vec![]), ipsum()]),
        ]
    );
    assert_eq!(
        parse_with_sw_removal("(for and lorem by)"),
        vec![wrap_in_parentheses(vec![
            get_term("for").no_term(), get_term("and").no_term(), lorem(), get_term("by").no_term(),
        ])]
    );
}

#[test]
fn field_name_test() {
    assert_eq!(parse("title:lorem"), vec![lorem().with_field("title")]);
    assert_eq!(parse("title:lorem ipsum"), vec![lorem().with_field("title"), ipsum()]);
    assert_eq!(parse("lorem title: "), vec![lorem().no_expand()]);
    assert_eq!(
        parse("title:lorem body:ipsum"),
        vec![lorem().with_field("title").no_expand(), ipsum().with_field("body")]
    );
    assert_eq!(
        parse("title:(lorem body:ipsum)"),
        vec![wrap_in_parentheses(vec![lorem().no_expand(), ipsum().with_field("body")])
            .with_field("title")]
    );
    assert_eq!(
        parse("title:+lorem +ipsum"),
        vec![lorem().with_field("title").mandatory(), ipsum().mandatory()]
    );
    assert_eq!(
        parse("title:(+lorem +ipsum)"),
        vec![
            wrap_in_parentheses(
                vec![lorem().mandatory(), ipsum().mandatory()],
            ).with_field("title"),
        ]
    );
    assert_eq!(
        parse("title:~ lorem ipsum)"),
        vec![lorem().with_field("title"), ipsum()]
    );
    assert_eq!(
        parse("title:-lorem ipsum)"),
        vec![
            lorem().with_field("title").subtracted(),
            ipsum(),
        ]
    );
    assert_eq!(
        parse("title:~lorem ipsum)"),
        vec![lorem().negated().with_field("title"), ipsum()]
    );
    assert_eq!(
        parse("title: lorem ~ipsum)"),
        vec![lorem().with_field("title"), ipsum().negated()]
    );
    assert_eq!(
        parse_with_sw_removal("title:for)"),
        vec![get_term("for").with_field("title").no_term()]
    );
    assert_eq!(
        parse_with_sw_removal("title:for body:lorem"),
        vec![
            get_term("for").with_field("title").no_expand().no_term(),
            lorem().with_field("body"),
        ]
    );
    assert_eq!(
        parse_with_sw_removal("title:lorem body:for"),
        vec![
            lorem().with_field("title").no_expand(),
            get_term("for").with_field("body").no_term(),
        ],
    );

    // Test invalid field names (should be parsed verbose / as-is)
    assert_eq!(
        parse("invalidfield: lorem ~ipsum)"),
        vec![
            get_term("invalidfield"),
            lorem(),
            ipsum().negated()
        ]
    );
    assert_eq!(
        parse("http://localhost:8080 lorem"),
        vec![
            get_term("http"),
            get_term("localhost"),
            get_term("8080"),
            lorem(),
        ]
    );
    assert_eq!(
        parse("http://localhost:8080 +lorem"),
        vec![
            get_term("http"),
            get_term("localhost"),
            get_term("8080"),
            lorem().mandatory(),
        ]
    );
    assert_eq!(
        parse("http://localhost:8080 title:lorem"),
        vec![
            get_term("http").no_expand(),
            get_term("localhost").no_expand(),
            get_term("8080").no_expand(),
            lorem().with_field("title"),
        ]
    );
    assert_eq!(
        parse("body:ipsum http://localhost:8080 title:lorem"),
        vec![
            ipsum().with_field("body").no_expand(),
            get_term("http").no_expand(),
            get_term("localhost").no_expand(),
            get_term("8080").no_expand(),
            lorem().with_field("title"),
        ]
    );
}

#[test]
fn spelling_correction_test() {
    assert_eq!(parse("lore"), vec![
        lorem()
            .with_corrected()
            .with_original_term("lore")
            .with_searched_terms(vec!["lore", "lorem"]),
    ]);
    assert_eq!(parse("+lore +ipsum"), vec![
        lorem()
            .with_corrected()
            .with_original_term("lore")
            .with_searched_terms(vec!["lore", "lorem"])
            .mandatory(),
        ipsum().mandatory(),
    ]);
    assert_eq!(parse("+\"lore ipsum\" +ipsum"), vec![
        get_phrase(vec![
            lorem()
                .mandatory()
                .with_corrected()
                .with_original_term("lore")
                .with_searched_terms(vec!["lore", "lorem"]),
            ipsum().mandatory(),
        ]).mandatory(),
        ipsum().mandatory(),
    ]);
}

#[test]
fn misc_test() {
    assert_eq!(
        parse("title: \"lorem ipsum\""),
        vec![
            get_phrase(vec![
                lorem().mandatory(), ipsum().mandatory(),
            ]).with_field("title")
        ]
    );

    assert_eq!(
        parse("title:+(+lorem +ipsum) -(lorem ipsum) body:(lorem ~ipsum)"),
        vec![
            wrap_in_parentheses(vec![lorem().mandatory(), ipsum().mandatory()])
                .mandatory()
                .with_field("title"),
            wrap_in_parentheses(vec![lorem(), ipsum(),]).subtracted(),
            wrap_in_parentheses(vec![lorem(), ipsum().negated()])
                .with_field("body")
        ]
    );

    assert_eq!(
        parse("title:(+lorem +ipsum) title:~(lorem ipsum) body:(lorem ~ipsum)"),
        vec![
            wrap_in_parentheses(vec![lorem().mandatory(), ipsum().mandatory()]).with_field("title"),
            wrap_in_parentheses(vec![lorem(), ipsum(),]).negated().with_field("title"),
            wrap_in_parentheses(vec![lorem(), ipsum().negated()])
                .with_field("body")
        ]
    );

    assert_eq!(
        parse("+body:ipsum +http://localhost:8080 -(title:lorem)"),
        vec![
            ipsum().with_field("body").mandatory(),
            get_term("http").mandatory(),
            get_term("localhost"),
            get_term("8080"),
            wrap_in_parentheses(vec![lorem().with_field("title")]).subtracted(),
        ]
    );

    assert_eq!(
        parse("title:\"+lorem +ipsum\" ~title:(\"lorem ipsum\") body:(lorem ~ipsum)"),
        vec![
            get_phrase(
                vec![lorem().mandatory(), ipsum().mandatory()],
            ).with_field("title"),
            wrap_in_parentheses(
                vec![get_phrase(vec![lorem().mandatory(), ipsum().mandatory()])],
            ).with_field("title").negated(),
            wrap_in_parentheses(
                vec![lorem(), ipsum().negated()],
            ).with_field("body")
        ]
    );

    assert_eq!(
        parse("title:(+lorem +body:(lorem ipsum)) -title:((body:\"lorem\") ipsum) body:(lorem ~ipsum)"),
        vec![
            wrap_in_parentheses(vec![
                lorem().mandatory(),
                wrap_in_parentheses(vec![
                    lorem(),
                    ipsum(),
                ]).with_field("body").mandatory(),
            ]).with_field("title"),
            wrap_in_parentheses(vec![
                wrap_in_parentheses(vec![
                    get_phrase(vec![lorem().mandatory()]).with_field("body"),
                ]),
                ipsum(),
            ]).with_field("title").subtracted(),
            wrap_in_parentheses(vec![lorem(), ipsum().negated()]).with_field("body")
        ]
    );

    assert_eq!(
        parse("title:+lorem +ipsum -lorem ipsum body:lorem ~ipsum"),
        vec![
            lorem().no_expand().with_field("title").mandatory(),
            ipsum().no_expand().mandatory(),
            lorem().no_expand().subtracted(),
            ipsum().no_expand(),
            lorem().with_field("body"),
            ipsum().negated(),
        ]
    );

    assert_eq!(
        parse("(~lorem ipsum)"),
        vec![
            wrap_in_parentheses(vec![
                lorem().negated(),
                ipsum(),
            ]),
        ]
    );

    assert_eq!(
        parse("title:(lorem) \\(-lorem ipsum) \\+title\\:lorem\\+ipsum \\(lorem) \\-lorem ipsum body\\:lorem \\~ipsum"),
        vec![
            wrap_in_parentheses(vec![get_term("lorem")]).with_field("title"),
            get_term("lorem").subtracted(),
            get_term("ipsum"),
            get_term("title"),
            get_term("lorem"),
            get_term("ipsum"),
            get_term("lorem"),
            get_term("lorem"),
            get_term("ipsum"),
            get_term("body"),
            get_term("lorem"),
            get_term("ipsum"),
        ]
    );

    assert_eq!(
        parse("((lorem +ipsum) lorem) (lorem()~ipsum)"),
        vec![
            wrap_in_parentheses(vec![wrap_in_parentheses(vec![lorem(), ipsum().mandatory()]), lorem(),]),
            wrap_in_parentheses(vec![lorem(), wrap_in_parentheses(vec![]), ipsum().negated()]),
        ]
    );
}

#[test]
fn zn_test() {
    assert_eq!(parse_zn("我-(lorem)"), vec![get_term("我"), wrap_in_parentheses(vec![lorem()]).subtracted()]);
}

#[test]
fn field_names_may_hold_a_colon() {
    let fields = vec!["a:b".to_owned()];
    let parts: Vec<P> = parse_query("a:b:lorem".to_owned(), &tokenizer(false), &fields, true, &dictionary())
        .iter()
        .map(conv)
        .collect();
    assert_eq!(parts, vec![lorem().with_field("a:b")]);
}
