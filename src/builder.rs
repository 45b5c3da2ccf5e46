//! Rule lines parsed into forms, and forms appended to the transducer as
//! disjoint identity paths from one shared start state.

use crate::automaton::{
    fst_add_arc, fst_add_state, fst_new, fst_num_states, fst_set_final, fst_set_start,
    fst_start, fst_states, ArcModel, StateModel, Transducer,
};
use crate::text::{
    chars_of, lemma_split_once_none, lemma_trim_sub, split_all, split_all_chars, split_once,
    split_once_chars, trim, trim_chars,
};
use vstd::prelude::*;

verus! {

/// `(lemma, tags, word)` of one form of a rule line.
pub type FormModel = (Seq<char>, Seq<char>, Seq<char>);

/// One form of a rule line: its lemma, its tag string and its surface word.
pub struct RuleForm {
    pub lemma: Vec<char>,
    pub tags: Vec<char>,
    pub word: Vec<char>,
}

impl View for RuleForm {
    type V = FormModel;

    open spec fn view(&self) -> FormModel {
        (self.lemma@, self.tags@, self.word@)
    }
}

#[derive(Debug, Clone, Copy, PartialEq, Eq, Structural)]
pub enum BuildError {
    /// A rule line without a `:`.
    MalformedEntry,
    /// The transducer would need more states than a state id can number.
    Construction,
}

/// The form a comma-separated token gives, or `None` for a token without `+`.
pub open spec fn form_of(lemma: Seq<char>, token: Seq<char>) -> Option<FormModel> {
    match split_once(trim(token), '+') {
        Some(p) => Some((lemma, p.1, p.0)),
        None => None,
    }
}

pub open spec fn forms_from(lemma: Seq<char>, tokens: Seq<Seq<char>>) -> Seq<FormModel>
    decreases tokens.len(),
{
    if tokens.len() == 0 {
        Seq::empty()
    } else {
        let prev = forms_from(lemma, tokens.drop_last());
        match form_of(lemma, tokens.last()) {
            Some(f) => prev.push(f),
            None => prev,
        }
    }
}

/// The forms of a rule line `lemma: word+tags, word+tags, ...`, or `None`
/// where the line holds no `:`.
pub open spec fn parse_line(line: Seq<char>) -> Option<Seq<FormModel>> {
    match split_once(line, ':') {
        Some(p) => Some(forms_from(trim(p.0), split_all(p.1, ','))),
        None => None,
    }
}

/// The labels along the path of a form: lemma, then tags, then word.
pub open spec fn path_labels(f: FormModel) -> Seq<u32> {
    (f.0 + f.1 + f.2).map_values(|c: char| c as u32)
}

/// The `k`-th state that a path with `labels` appends at index `base + k`.
pub open spec fn path_state(base: nat, labels: Seq<u32>, k: int) -> StateModel {
    if k + 1 < labels.len() {
        (false, seq![(labels[k + 1], labels[k + 1], (base + k + 1) as u32)])
    } else {
        (true, Seq::empty())
    }
}

/// `states` after a path with `labels` is appended from state `from`: one
/// fresh state per label, arcs with equal input and output labels, and only
/// the path's last state made final.
pub open spec fn append_path(states: Seq<StateModel>, from: int, labels: Seq<u32>) -> Seq<StateModel> {
    if labels.len() == 0 {
        states.update(from, (true, states[from].1))
    } else {
        states.update(
            from,
            (states[from].0, states[from].1.push((labels[0], labels[0], states.len() as u32))),
        ) + Seq::new(labels.len(), |k: int| path_state(states.len(), labels, k))
    }
}

/// The first `i` steps of `append_path`, before the last state is made final.
pub open spec fn partial_path(states: Seq<StateModel>, from: int, labels: Seq<u32>, i: nat) -> Seq<StateModel> {
    if i == 0 {
        states
    } else {
        states.update(
            from,
            (states[from].0, states[from].1.push((labels[0], labels[0], states.len() as u32))),
        ) + Seq::new(
            i,
            |k: int|
                if k + 1 < i {
                    (false, seq![(labels[k + 1], labels[k + 1], (states.len() + k + 1) as u32)])
                } else {
                    (false, Seq::<ArcModel>::empty())
                },
        )
    }
}

pub open spec fn add_form(states: Seq<StateModel>, from: int, f: FormModel) -> Result<Seq<StateModel>, BuildError> {
    if states.len() + path_labels(f).len() <= u32::MAX {
        Ok(append_path(states, from, path_labels(f)))
    } else {
        Err(BuildError::Construction)
    }
}

pub open spec fn add_forms(states: Seq<StateModel>, from: int, forms: Seq<FormModel>) -> Result<Seq<StateModel>, BuildError>
    decreases forms.len(),
{
    if forms.len() == 0 {
        Ok(states)
    } else {
        match add_forms(states, from, forms.drop_last()) {
            Ok(s) => add_form(s, from, forms.last()),
            Err(e) => Err(e),
        }
    }
}

/// `states` after every form of a rule line is appended from `from`.
pub open spec fn process_line(states: Seq<StateModel>, from: int, line: Seq<char>) -> Result<Seq<StateModel>, BuildError> {
    match parse_line(line) {
        Some(forms) => add_forms(states, from, forms),
        None => Err(BuildError::MalformedEntry),
    }
}

/// The states of the transducer built from rule lines: a start state `0`,
/// then each line's paths in order.
pub open spec fn build_lines(lines: Seq<Seq<char>>) -> Result<Seq<StateModel>, BuildError>
    decreases lines.len(),
{
    if lines.len() == 0 {
        Ok(seq![(false, Seq::<ArcModel>::empty())])
    } else {
        match build_lines(lines.drop_last()) {
            Ok(s) => process_line(s, 0, lines.last()),
            Err(e) => Err(e),
        }
    }
}

pub open spec fn lines_view(lines: Seq<String>) -> Seq<Seq<char>> {
    lines.map_values(|l: String| l@)
}

proof fn lemma_add_forms_err(states: Seq<StateModel>, from: int, forms: Seq<FormModel>, k: int)
    requires
        0 <= k <= forms.len(),
        add_forms(states, from, forms.take(k)) is Err,
    ensures
        add_forms(states, from, forms) == add_forms(states, from, forms.take(k)),
    decreases forms.len() - k,
{
    if k < forms.len() {
        assert(forms.take(k + 1).drop_last() =~= forms.take(k));
        lemma_add_forms_err(states, from, forms, k + 1);
    } else {
        assert(forms.take(k) =~= forms);
    }
}

proof fn lemma_build_lines_err(lines: Seq<Seq<char>>, k: int)
    requires
        0 <= k <= lines.len(),
        build_lines(lines.take(k)) is Err,
    ensures
        build_lines(lines) == build_lines(lines.take(k)),
    decreases lines.len() - k,
{
    if k < lines.len() {
        assert(lines.take(k + 1).drop_last() =~= lines.take(k));
        lemma_build_lines_err(lines, k + 1);
    } else {
        assert(lines.take(k) =~= lines);
    }
}

fn push_labels(out: &mut Vec<u32>, s: &Vec<char>)
    ensures
        final(out)@ == old(out)@ + s@.map_values(|c: char| c as u32),
{
    let ghost start = out@;
    let mut i: usize = 0;
    while i < s.len()
        invariant
            i <= s@.len(),
            out@ == start + s@.take(i as int).map_values(|c: char| c as u32),
        decreases s@.len() - i,
    {
        out.push(s[i] as u32);
        proof {
            assert(s@.take(i + 1).map_values(|c: char| c as u32) =~= s@.take(i as int).map_values(
                |c: char| c as u32,
            ).push(s@[i as int] as u32));
            assert(out@ =~= start + s@.take(i + 1).map_values(|c: char| c as u32));
        }
        i += 1;
    }
    proof {
        assert(s@.take(s@.len() as int) =~= s@);
    }
}

/// The labels along the path of a form.
pub fn form_labels(form: &RuleForm) -> (r: Vec<u32>)
    ensures
        r@ == path_labels(form@),
{
    let mut r: Vec<u32> = Vec::new();
    push_labels(&mut r, &form.lemma);
    push_labels(&mut r, &form.tags);
    push_labels(&mut r, &form.word);
    proof {
        let f = |c: char| c as u32;
        assert(r@ =~= (form.lemma@ + form.tags@ + form.word@).map_values(f));
    }
    r
}

/// The number of labels along the paths of `forms`.
pub open spec fn total_labels(forms: Seq<FormModel>) -> nat
    decreases forms.len(),
{
    if forms.len() == 0 {
        0
    } else {
        total_labels(forms.drop_last()) + path_labels(forms.last()).len()
    }
}

/// Every arc reads and writes the same label.
pub open spec fn identity_arcs(states: Seq<StateModel>) -> bool {
    forall|i: int, j: int|
        0 <= i < states.len() && 0 <= j < states[i].1.len() ==> (#[trigger] states[i].1[j]).0
            == states[i].1[j].1
}

/// The path of a form `(L, T, W)` appended from `from` has `|L| + |T| + |W|`
/// fresh states; its `k`-th arc reads and writes the code of the `k`-th
/// character of `L ‖ T ‖ W`; only its last state is final; every other
/// state keeps its arcs and finality, `from` only gaining the first arc.
pub proof fn lemma_form_path(states: Seq<StateModel>, from: int, f: FormModel)
    requires
        0 <= from < states.len(),
    ensures
        ({
            let labels = path_labels(f);
            let r = append_path(states, from, labels);
            let base = states.len() as int;
            let n = labels.len() as int;
            &&& n == f.0.len() + f.1.len() + f.2.len()
            &&& forall|k: int| 0 <= k < n ==> #[trigger] labels[k] == (f.0 + f.1 + f.2)[k] as u32
            &&& r.len() == base + n
            &&& forall|j: int| 0 <= j < base && j != from ==> #[trigger] r[j] == states[j]
            &&& n > 0 ==> r[from] == (states[from].0, states[from].1.push((labels[0], labels[0], base as u32)))
            &&& n == 0 ==> r[from] == (true, states[from].1)
            &&& forall|k: int| 0 <= k < n ==> (#[trigger] r[base + k]).0 == (k == n - 1)
            &&& forall|k: int| 0 <= k < n - 1 ==> (#[trigger] r[base + k]).1 == seq![
                (labels[k + 1], labels[k + 1], (base + k + 1) as u32),
            ]
            &&& n > 0 ==> r[base + n - 1].1.len() == 0
        }),
{
    let labels = path_labels(f);
    let base = states.len() as int;
    let n = labels.len() as int;
    let r = append_path(states, from, labels);
    assert forall|k: int| 0 <= k < n implies (#[trigger] r[base + k]).0 == (k == n - 1) by {
        assert(r[base + k] == path_state(base as nat, labels, k));
    }
    assert forall|k: int| 0 <= k < n - 1 implies (#[trigger] r[base + k]).1 == seq![
        (labels[k + 1], labels[k + 1], (base + k + 1) as u32),
    ] by {
        assert(r[base + k] == path_state(base as nat, labels, k));
    }
    if n > 0 {
        assert(r[base + n - 1] == path_state(base as nat, labels, n - 1));
    }
}

/// Forms add up: the states after appending forms number the states before
/// plus one per label of every form, and no state but `from` is touched by
/// a later path.
pub proof fn lemma_forms_additive(states: Seq<StateModel>, from: int, forms: Seq<FormModel>)
    requires
        0 <= from < states.len(),
        add_forms(states, from, forms) is Ok,
    ensures
        add_forms(states, from, forms)->Ok_0.len() == states.len() + total_labels(forms),
        forall|j: int|
            0 <= j < states.len() && j != from ==> #[trigger] add_forms(states, from, forms)->Ok_0[j]
                == states[j],
    decreases forms.len(),
{
    if forms.len() > 0 {
        let prev = forms.drop_last();
        lemma_forms_additive(states, from, prev);
        let s = add_forms(states, from, prev)->Ok_0;
        lemma_form_path(s, from, forms.last());
    }
}

/// A comma-separated token without `+` gives no form.
pub proof fn lemma_token_without_plus(lemma: Seq<char>, token: Seq<char>)
    requires
        forall|i: int| 0 <= i < token.len() ==> token[i] != '+',
    ensures
        form_of(lemma, token) is None,
{
    lemma_trim_sub(token);
    lemma_split_once_none(trim(token), '+');
}

/// Building is a function of the rule lines: two transducers built from the
/// same lines have the same states, arcs, labels and final states.
pub proof fn lemma_build_deterministic(lines: Seq<Seq<char>>, f1: Transducer, f2: Transducer)
    requires
        build_lines(lines) is Ok,
        fst_states(f1) == build_lines(lines)->Ok_0,
        fst_states(f2) == build_lines(lines)->Ok_0,
    ensures
        fst_states(f1) == fst_states(f2),
        fst_states(f1).len() == fst_states(f2).len(),
{
}

/// Every arc of a built transducer reads and writes the same label.
pub proof fn lemma_build_identity(lines: Seq<Seq<char>>)
    requires
        build_lines(lines) is Ok,
    ensures
        identity_arcs(build_lines(lines)->Ok_0),
    decreases lines.len(),
{
    if lines.len() > 0 {
        lemma_build_identity(lines.drop_last());
        let s = build_lines(lines.drop_last())->Ok_0;
        lemma_build_nonempty(lines.drop_last());
        let forms = parse_line(lines.last())->Some_0;
        lemma_add_forms_identity(s, 0, forms);
    } else {
        let s = build_lines(lines)->Ok_0;
        assert(s == seq![(false, Seq::<ArcModel>::empty())]);
    }
}

proof fn lemma_build_nonempty(lines: Seq<Seq<char>>)
    requires
        build_lines(lines) is Ok,
    ensures
        build_lines(lines)->Ok_0.len() >= 1,
    decreases lines.len(),
{
    if lines.len() > 0 {
        lemma_build_nonempty(lines.drop_last());
        let s = build_lines(lines.drop_last())->Ok_0;
        lemma_forms_additive(s, 0, parse_line(lines.last())->Some_0);
    }
}

proof fn lemma_add_forms_identity(states: Seq<StateModel>, from: int, forms: Seq<FormModel>)
    requires
        0 <= from < states.len(),
        identity_arcs(states),
        add_forms(states, from, forms) is Ok,
    ensures
        identity_arcs(add_forms(states, from, forms)->Ok_0),
    decreases forms.len(),
{
    if forms.len() > 0 {
        let prev = forms.drop_last();
        lemma_add_forms_identity(states, from, prev);
        lemma_forms_additive(states, from, prev);
        let s = add_forms(states, from, prev)->Ok_0;
        let labels = path_labels(forms.last());
        let r = append_path(s, from, labels);
        lemma_form_path(s, from, forms.last());
        assert forall|i: int, j: int| 0 <= i < r.len() && 0 <= j < r[i].1.len() implies (#[trigger] r[i].1[j]).0 == r[i].1[j].1 by {
            if i >= s.len() {
                assert(r[i] == path_state(s.len(), labels, i - s.len()));
            } else if i == from && labels.len() > 0 && j == s[from].1.len() {
            } else {
            }
        }
    }
}

/// The forms of a rule line; `MalformedEntry` exactly where it holds no `:`.
/// A comma-separated token without `+` gives no form.
pub fn parse_entry(line: &str) -> (r: Result<Vec<RuleForm>, BuildError>)
    ensures
        match parse_line(line@) {
            None => r == Err::<Vec<RuleForm>, BuildError>(BuildError::MalformedEntry),
            Some(fs) => r is Ok && r->Ok_0@.len() == fs.len() && forall|k: int|
                0 <= k < fs.len() ==> (#[trigger] r->Ok_0@[k])@ == fs[k],
        },
{
    let chars = chars_of(line);
    match split_once_chars(&chars, ':') {
        None => Err(BuildError::MalformedEntry),
        Some((left, right)) => {
            let lemma = trim_chars(&left);
            let tokens = split_all_chars(&right, ',');
            let ghost tv = split_all(right@, ',');
            let mut forms: Vec<RuleForm> = Vec::new();
            let mut i: usize = 0;
            while i < tokens.len()
                invariant
                    i <= tokens@.len(),
                    tokens@.len() == tv.len(),
                    forall|k: int| 0 <= k < tokens@.len() ==> tokens@[k]@ == tv[k],
                    forms@.len() == forms_from(lemma@, tv.take(i as int)).len(),
                    forall|k: int|
                        0 <= k < forms@.len() ==> (#[trigger] forms@[k])@ == forms_from(
                            lemma@,
                            tv.take(i as int),
                        )[k],
                decreases tokens@.len() - i,
            {
                proof {
                    assert(tv.take(i + 1).drop_last() =~= tv.take(i as int));
                }
                let tok = trim_chars(&tokens[i]);
                match split_once_chars(&tok, '+') {
                    Some((w, t)) => {
                        let l = lemma.clone();
                        proof {
                            assert(l@ =~= lemma@);
                        }
                        forms.push(RuleForm { lemma: l, tags: t, word: w });
                    },
                    None => {},
                }
                i += 1;
            }
            proof {
                assert(tv.take(tv.len() as int) =~= tv);
            }
            Ok(forms)
        },
    }
}

/// Appends the path of one form from state `start`: a fresh state for each
/// character of lemma, tags and word, in that order, each reached by an arc
/// whose input and output labels are that character; the last one is made
/// final. `Construction` where the states would outgrow a state id.
pub fn add_transduction(fst: &mut Transducer, start: u32, form: &RuleForm) -> (r: Result<(), BuildError>)
    requires
        start < fst_states(*old(fst)).len(),
    ensures
        fst_start(*final(fst)) == fst_start(*old(fst)),
        match add_form(fst_states(*old(fst)), start as int, form@) {
            Ok(s) => r is Ok && fst_states(*final(fst)) == s,
            Err(e) => r == Err::<(), BuildError>(e) && fst_states(*final(fst)) == fst_states(*old(fst)),
        },
{
    let labels = form_labels(form);
    let n_states = fst_num_states(fst);
    if n_states > u32::MAX as usize || labels.len() > u32::MAX as usize - n_states {
        return Err(BuildError::Construction);
    }
    let ghost s0 = fst_states(*fst);
    let ghost st = fst_start(*fst);
    let mut current: u32 = start;
    let mut i: usize = 0;
    while i < labels.len()
        invariant
            i <= labels@.len(),
            s0.len() + labels@.len() <= u32::MAX,
            start < s0.len(),
            fst_states(*fst) == partial_path(s0, start as int, labels@, i as nat),
            fst_states(*fst).len() == s0.len() + i,
            current == if i == 0 { start as int } else { s0.len() + i - 1 },
            fst_start(*fst) == st,
        decreases labels@.len() - i,
    {
        let ghost before = fst_states(*fst);
        let next = fst_add_state(fst);
        let c = labels[i];
        match fst_add_arc(fst, current, c, c, next) {
            Ok(_) => {},
            Err(_) => {
                return Err(BuildError::Construction);
            },
        }
        proof {
            let after = partial_path(s0, start as int, labels@, (i + 1) as nat);
            if i == 0 {
                assert(fst_states(*fst) =~= after);
            } else {
                assert(before[current as int] == (false, Seq::<ArcModel>::empty()));
                assert(fst_states(*fst) =~= after);
            }
        }
        current = next;
        i += 1;
    }
    match fst_set_final(fst, current) {
        Ok(_) => {},
        Err(_) => {
            return Err(BuildError::Construction);
        },
    }
    proof {
        assert(fst_states(*fst) =~= append_path(s0, start as int, labels@));
    }
    Ok(())
}

/// Appends the paths of every form of one rule line from state `start`.
pub fn process_entry(fst: &mut Transducer, entry: &str, start: u32) -> (r: Result<(), BuildError>)
    requires
        start < fst_states(*old(fst)).len(),
    ensures
        fst_start(*final(fst)) == fst_start(*old(fst)),
        fst_states(*final(fst)).len() >= fst_states(*old(fst)).len(),
        match process_line(fst_states(*old(fst)), start as int, entry@) {
            Ok(s) => r is Ok && fst_states(*final(fst)) == s,
            Err(e) => r == Err::<(), BuildError>(e),
        },
{
    let forms = match parse_entry(entry) {
        Ok(f) => f,
        Err(e) => {
            return Err(e);
        },
    };
    let ghost fv = parse_line(entry@)->Some_0;
    let ghost s0 = fst_states(*fst);
    let ghost st = fst_start(*fst);
    let mut i: usize = 0;
    while i < forms.len()
        invariant
            i <= forms@.len(),
            forms@.len() == fv.len(),
            forall|k: int| 0 <= k < fv.len() ==> (#[trigger] forms@[k])@ == fv[k],
            start < s0.len(),
            add_forms(s0, start as int, fv.take(i as int)) == Ok::<Seq<StateModel>, BuildError>(
                fst_states(*fst),
            ),
            fst_states(*fst).len() >= s0.len(),
            fst_start(*fst) == st,
            s0 == fst_states(*old(fst)),
            st == fst_start(*old(fst)),
            parse_line(entry@) == Some(fv),
        decreases forms@.len() - i,
    {
        proof {
            assert(fv.take(i + 1).drop_last() =~= fv.take(i as int));
            assert(fv.take(i + 1).last() == forms@[i as int]@);
        }
        match add_transduction(fst, start, &forms[i]) {
            Ok(_) => {},
            Err(e) => {
                proof {
                    lemma_add_forms_err(s0, start as int, fv, i + 1);
                }
                return Err(e);
            },
        }
        i += 1;
    }
    proof {
        assert(fv.take(fv.len() as int) =~= fv);
    }
    Ok(())
}

/// Builds the transducer of a rule file given as its lines: a start state,
/// then the paths of each line in order. Fails with the first error a line
/// gives.
pub fn generate_fst(lines: &Vec<String>) -> (r: Result<Transducer, BuildError>)
    ensures
        match build_lines(lines_view(lines@)) {
            Ok(s) => r is Ok && fst_states(r->Ok_0) == s && fst_start(r->Ok_0) == Some(0u32),
            Err(e) => r is Err && r->Err_0 == e,
        },
{
    let ghost lv = lines_view(lines@);
    let mut fst = fst_new();
    let start = fst_add_state(&mut fst);
    match fst_set_start(&mut fst, start) {
        Ok(_) => {},
        Err(_) => {
            return Err(BuildError::Construction);
        },
    }
    proof {
        assert(lv.take(0) =~= Seq::<Seq<char>>::empty());
        assert(fst_states(fst) =~= seq![(false, Seq::<ArcModel>::empty())]);
    }
    let mut i: usize = 0;
    while i < lines.len()
        invariant
            i <= lines@.len(),
            lv == lines_view(lines@),
            start == 0,
            build_lines(lv.take(i as int)) == Ok::<Seq<StateModel>, BuildError>(fst_states(fst)),
            fst_states(fst).len() >= 1,
            fst_start(fst) == Some(0u32),
        decreases lines@.len() - i,
    {
        proof {
            assert(lv.take(i + 1).drop_last() =~= lv.take(i as int));
            assert(lv.take(i + 1).last() == lines@[i as int]@);
        }
        match process_entry(&mut fst, lines[i].as_str(), start) {
            Ok(_) => {},
            Err(e) => {
                proof {
                    lemma_build_lines_err(lv, i + 1);
                }
                return Err(e);
            },
        }
        i += 1;
    }
    proof {
        assert(lv.take(lv.len() as int) =~= lv);
    }
    Ok(fst)
}

} // verus!
