use slang::matcher::exec_match_at;
use slang::pattern::{PatternItem, Template, TemplateItem};
use slang::tokenizer::Tokenizer;
use slang::trie::{HashTrieNode, TrieEdge};

fn ok_template() -> Template {
    vec![TemplateItem::Text {
        data: "ok".to_string(),
    }]
}

fn backref_edges() -> Vec<TrieEdge<PatternItem, Template>> {
    vec![
        TrieEdge {
            from: 0,
            key: PatternItem::MatchToken {
                value: "dup".to_string(),
            },
            node: HashTrieNode::Branch { id: 1 },
        },
        TrieEdge {
            from: 1,
            key: PatternItem::TokenVar,
            node: HashTrieNode::Branch { id: 2 },
        },
        TrieEdge {
            from: 2,
            key: PatternItem::MatchTokenVar { index: 0 },
            node: HashTrieNode::Leaf {
                value: ok_template(),
            },
        },
    ]
}

#[test]
fn back_reference_matches_repeated_token() {
    let tokenizer = Tokenizer::default();
    let toks = tokenizer.tokenize("dup x x");
    let edges = backref_edges();
    let hit = exec_match_at(&edges, 0, &toks, 0, &Vec::new()).unwrap();
    assert_eq!(hit.end, 3);
    assert_eq!(hit.vars, vec![(1, 2)]);
}

#[test]
fn back_reference_rejects_differing_token() {
    let tokenizer = Tokenizer::default();
    let toks = tokenizer.tokenize("dup x y");
    let edges = backref_edges();
    assert!(exec_match_at(&edges, 0, &toks, 0, &Vec::new()).is_none());
}

#[test]
fn sequence_var_is_greedy_with_fallback() {
    let edges: Vec<TrieEdge<PatternItem, Template>> = vec![
        TrieEdge {
            from: 0,
            key: PatternItem::MatchToken {
                value: "seq".to_string(),
            },
            node: HashTrieNode::Branch { id: 1 },
        },
        TrieEdge {
            from: 1,
            key: PatternItem::SequenceVar,
            node: HashTrieNode::Branch { id: 2 },
        },
        TrieEdge {
            from: 2,
            key: PatternItem::MatchToken {
                value: "end".to_string(),
            },
            node: HashTrieNode::Leaf {
                value: ok_template(),
            },
        },
    ];
    let tokenizer = Tokenizer::default();
    let toks = tokenizer.tokenize("seq a b end");
    let hit = exec_match_at(&edges, 0, &toks, 0, &Vec::new()).unwrap();
    // The run shrinks from the full remainder until `end` can still match.
    assert_eq!(hit.end, 4);
    assert_eq!(hit.vars, vec![(1, 3)]);
}

#[test]
fn literal_edge_has_priority_over_capture() {
    let edges: Vec<TrieEdge<PatternItem, Template>> = vec![
        TrieEdge {
            from: 0,
            key: PatternItem::TokenVar,
            node: HashTrieNode::Leaf {
                value: vec![TemplateItem::Text {
                    data: "captured".to_string(),
                }],
            },
        },
        TrieEdge {
            from: 0,
            key: PatternItem::MatchToken {
                value: "lit".to_string(),
            },
            node: HashTrieNode::Leaf {
                value: ok_template(),
            },
        },
    ];
    let tokenizer = Tokenizer::default();
    let toks = tokenizer.tokenize("lit");
    let hit = exec_match_at(&edges, 0, &toks, 0, &Vec::new()).unwrap();
    // The literal edge wins even though the capture edge was stored first.
    assert_eq!(hit.tpl, 1);
}
