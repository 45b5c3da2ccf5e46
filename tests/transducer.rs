use morph_lib::{generate_fst, parse_entry, realize_query, BuildError, QueryError, Transducer};
use rustfst::fst_impls::VectorFst;
use rustfst::fst_traits::{CoreFst, ExpandedFst, MutableFst};
use rustfst::semirings::{Semiring, TropicalWeight};
use rustfst::trs::Trs;
use rustfst::Tr;

fn build(lines: &[&str]) -> Result<Transducer, BuildError> {
    let owned: Vec<String> = lines.iter().map(|l| l.to_string()).collect();
    generate_fst(&owned)
}

fn arcs_of(t: &Transducer, s: u32) -> Vec<(u32, u32, u32)> {
    t.fst
        .get_trs(s)
        .unwrap()
        .trs()
        .iter()
        .map(|tr| (tr.ilabel, tr.olabel, tr.nextstate))
        .collect()
}

fn finals(t: &Transducer) -> Vec<u32> {
    (0..t.fst.num_states() as u32)
        .filter(|s| t.fst.is_final(*s).unwrap())
        .collect()
}

#[test]
fn single_form_path_shape() {
    let t = build(&["ab: c+D"]).unwrap();
    assert_eq!(t.fst.start(), Some(0));
    // 1 start state + |ab| + |D| + |c|
    assert_eq!(t.fst.num_states(), 5);
    let chain = ['a', 'b', 'D', 'c'];
    for (k, ch) in chain.iter().enumerate() {
        let arcs = arcs_of(&t, k as u32);
        assert_eq!(arcs, vec![(*ch as u32, *ch as u32, k as u32 + 1)]);
    }
    assert!(arcs_of(&t, 4).is_empty());
    assert_eq!(finals(&t), vec![4]);
}

#[test]
fn estar_state_count() {
    let t = build(&["estar: estamos+PLU+IND+PRES+1P"]).unwrap();
    let n = "estar".len() + "PLU+IND+PRES+1P".len() + "estamos".len();
    assert_eq!(t.fst.num_states(), 1 + n);
    assert_eq!(finals(&t), vec![n as u32]);
}

#[test]
fn entries_are_additive_and_disjoint() {
    let one = build(&["ab: c+D"]).unwrap();
    let two = build(&["ab: c+D", "xy: z+W"]).unwrap();
    assert_eq!(one.fst.num_states(), 5);
    assert_eq!(two.fst.num_states(), 9);
    // The second path starts with a fresh state, hung off the start state.
    assert_eq!(arcs_of(&two, 0), vec![('a' as u32, 'a' as u32, 1), ('x' as u32, 'x' as u32, 5)]);
    for s in 1..5 {
        assert_eq!(arcs_of(&two, s), arcs_of(&one, s));
    }
    assert_eq!(finals(&two), vec![4, 8]);
}

#[test]
fn same_lemma_shares_no_prefix() {
    let t = build(&["ab: c+D, e+F"]).unwrap();
    assert_eq!(t.fst.num_states(), 9);
    assert_eq!(arcs_of(&t, 0), vec![('a' as u32, 'a' as u32, 1), ('a' as u32, 'a' as u32, 5)]);
}

#[test]
fn form_without_plus_adds_nothing() {
    let t = build(&["gato: gatos"]).unwrap();
    assert_eq!(t.fst.num_states(), 1);
    assert!(arcs_of(&t, 0).is_empty());
    assert!(finals(&t).is_empty());
    let t = build(&["gato: gatos, gatas+FEM"]).unwrap();
    assert_eq!(t.fst.num_states(), 1 + 4 + 3 + 5);
}

#[test]
fn missing_colon_is_malformed() {
    assert_eq!(build(&["gato gatos+PL"]).err(), Some(BuildError::MalformedEntry));
    assert_eq!(build(&["ab: c+D", ""]).err(), Some(BuildError::MalformedEntry));
    assert_eq!(parse_entry("no colon here").err(), Some(BuildError::MalformedEntry));
}

#[test]
fn empty_file_gives_start_state_only() {
    let t = build(&[]).unwrap();
    assert_eq!(t.fst.num_states(), 1);
    assert_eq!(t.fst.start(), Some(0));
}

#[test]
fn parse_trims_and_splits() {
    let forms = parse_entry("  ser :  soy+1S+SG ,eres+2S,  sin ,\u{3000}es+3S\t").unwrap();
    let got: Vec<(String, String, String)> = forms
        .iter()
        .map(|f| {
            (
                f.lemma.iter().collect(),
                f.tags.iter().collect(),
                f.word.iter().collect(),
            )
        })
        .collect();
    let want: Vec<(String, String, String)> = vec![
        ("ser".into(), "1S+SG".into(), "soy".into()),
        ("ser".into(), "2S".into(), "eres".into()),
        ("ser".into(), "3S".into(), "es".into()),
    ];
    assert_eq!(got, want);
}

#[test]
fn colon_splits_once() {
    let forms = parse_entry("a:b+c:d").unwrap();
    assert_eq!(forms.len(), 1);
    assert_eq!(forms[0].lemma, vec!['a']);
    assert_eq!(forms[0].word, vec!['b']);
    assert_eq!(forms[0].tags, vec!['c', ':', 'd']);
}

#[test]
fn estar_full_tags_do_not_match() {
    let t = build(&["estar: estamos+PLU+IND+PRES+1P"]).unwrap();
    // The stored chain keeps the `+` between tags; the query drops them.
    assert_eq!(realize_query(&t, "estar+PLU+IND+PRES+1P"), Err(QueryError::NoPath('I')));
    assert_eq!(realize_query(&t, "estar+PLU"), Err(QueryError::IncompleteMatch));
    assert_eq!(realize_query(&t, "estar"), Err(QueryError::IncompleteMatch));
}

#[test]
fn single_tag_query_echoes_chain() {
    let t = build(&["ser: soy+1S"]).unwrap();
    assert_eq!(realize_query(&t, "ser+1S+soy"), Ok("ser1Ssoy".to_string()));
    assert_eq!(realize_query(&t, "ser1Ssoy"), Ok("ser1Ssoy".to_string()));
    assert_eq!(realize_query(&t, "ser+1S"), Err(QueryError::IncompleteMatch));
    assert_eq!(realize_query(&t, "ser+1S+soyx"), Err(QueryError::NoPath('x')));
    assert_eq!(realize_query(&t, "ser+1S+sox"), Err(QueryError::NoPath('x')));
}

#[test]
fn empty_query_fails() {
    let t = build(&["ser: soy+1S"]).unwrap();
    assert_eq!(realize_query(&t, ""), Err(QueryError::EmptyQuery));
}

#[test]
fn only_plus_query_stops_at_start() {
    let t = build(&["ser: soy+1S"]).unwrap();
    assert_eq!(realize_query(&t, "+"), Err(QueryError::IncompleteMatch));
}

#[test]
fn unknown_first_symbol_fails_on_it() {
    let t = build(&["ser: soy+1S"]).unwrap();
    assert_eq!(realize_query(&t, "xyz+1S"), Err(QueryError::NoPath('x')));
}

#[test]
fn first_matching_arc_wins() {
    let t = build(&["ab: c+D", "ab: e+F"]).unwrap();
    assert_eq!(realize_query(&t, "ab+D+c"), Ok("abDc".to_string()));
    assert_eq!(realize_query(&t, "ab+F+e"), Err(QueryError::NoPath('F')));
}

#[test]
fn unicode_characters_round_trip() {
    let t = build(&["niño: niñas+FEM"]).unwrap();
    assert_eq!(realize_query(&t, "niño+FEM+niñas"), Ok("niñoFEMniñas".to_string()));
}

#[test]
fn empty_path_makes_start_final() {
    let t = build(&[": +"]).unwrap();
    assert_eq!(t.fst.num_states(), 1);
    assert_eq!(finals(&t), vec![0]);
    assert_eq!(realize_query(&t, "+"), Ok(String::new()));
}

#[test]
fn building_twice_gives_same_shape() {
    let lines = ["ser: soy+1S, eres+2S", "estar: estamos+PLU+IND+PRES+1P", "gato: gatos"];
    let a = build(&lines).unwrap();
    let b = build(&lines).unwrap();
    assert_eq!(a.fst.num_states(), b.fst.num_states());
    assert_eq!(finals(&a), finals(&b));
    for s in 0..a.fst.num_states() as u32 {
        assert_eq!(arcs_of(&a, s), arcs_of(&b, s));
    }
}

#[test]
fn no_start_state_fails() {
    let t = Transducer { fst: VectorFst::new() };
    assert_eq!(realize_query(&t, "a"), Err(QueryError::NoStartState));
}

#[test]
fn output_labels_are_decoded() {
    let mut fst: VectorFst<TropicalWeight> = VectorFst::new();
    let s0 = fst.add_state();
    let s1 = fst.add_state();
    let s2 = fst.add_state();
    fst.set_start(s0).unwrap();
    fst.add_tr(s0, Tr::new('a' as u32, 'b' as u32, TropicalWeight::one(), s1)).unwrap();
    fst.add_tr(s1, Tr::new('c' as u32, 0xD800, TropicalWeight::one(), s2)).unwrap();
    fst.set_final(s2, TropicalWeight::one()).unwrap();
    let t = Transducer { fst };
    assert_eq!(realize_query(&t, "a+c"), Ok("b\0".to_string()));
}

#[test]
fn dangling_arc_reports_missing_state() {
    let mut fst: VectorFst<TropicalWeight> = VectorFst::new();
    let s0 = fst.add_state();
    fst.set_start(s0).unwrap();
    fst.add_tr(s0, Tr::new('a' as u32, 'a' as u32, TropicalWeight::one(), 7)).unwrap();
    let t = Transducer { fst };
    assert_eq!(realize_query(&t, "a"), Err(QueryError::MissingState));
}
