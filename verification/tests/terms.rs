use smt_log_parser::error::Error;
use smt_log_parser::idx::{QuantIdx, TermIdx};
use smt_log_parser::terms::{Meaning, Term, TermKind, Terms};

fn add(terms: &mut Terms, kind: TermKind, children: &[TermIdx]) -> TermIdx {
    terms.new_term(Term { id: None, kind, child_ids: children.to_vec() }).unwrap()
}

fn show(terms: &Terms, t: TermIdx) -> String {
    let row = terms.get(t).unwrap();
    let head = match row.kind {
        TermKind::Var(n) => format!("x{n}"),
        TermKind::App(n) => format!("f{n}"),
        TermKind::Quant(q) => format!("q{}", q.0),
        TermKind::Generalised => return "_".to_string(),
    };
    if row.child_ids.is_empty() {
        head
    } else {
        let inner: Vec<String> = row.child_ids.iter().map(|c| show(terms, *c)).collect();
        format!("{head}({})", inner.join(","))
    }
}

/// a, b, f(a,b), f(a,a), f(b,b), g(f(a,b)), g(f(a,a)), g(a)
fn sample() -> (Terms, Vec<TermIdx>) {
    let mut t = Terms::new();
    let a = add(&mut t, TermKind::App(1), &[]);
    let b = add(&mut t, TermKind::App(2), &[]);
    let fab = add(&mut t, TermKind::App(3), &[a, b]);
    let faa = add(&mut t, TermKind::App(3), &[a, a]);
    let fbb = add(&mut t, TermKind::App(3), &[b, b]);
    let gfab = add(&mut t, TermKind::App(4), &[fab]);
    let gfaa = add(&mut t, TermKind::App(4), &[faa]);
    let ga = add(&mut t, TermKind::App(4), &[a]);
    (t, vec![a, b, fab, faa, fbb, gfab, gfaa, ga])
}

#[test]
fn generalise_keeps_what_agrees() {
    let (mut t, ix) = sample();
    let r = t.generalise(ix[2], ix[3]).unwrap();
    assert_eq!(show(&t, r), "f3(f1,_)");
    let r = t.generalise(ix[3], ix[4]).unwrap();
    assert_eq!(show(&t, r), "f3(_,_)");
    let r = t.generalise(ix[5], ix[6]).unwrap();
    assert_eq!(show(&t, r), "f4(f3(f1,_))");
    let r = t.generalise(ix[5], ix[7]).unwrap();
    assert_eq!(show(&t, r), "f4(_)");
    let r = t.generalise(ix[0], ix[2]).unwrap();
    assert_eq!(show(&t, r), "_");
}

#[test]
fn generalise_is_idempotent_and_commutes() {
    let (mut t, ix) = sample();
    let before = t.len();
    for i in &ix {
        assert_eq!(t.generalise(*i, *i), Some(*i));
    }
    assert_eq!(t.len(), before);
    for i in &ix {
        for j in &ix {
            let ab = t.generalise(*i, *j).unwrap();
            let ba = t.generalise(*j, *i).unwrap();
            assert_eq!(show(&t, ab), show(&t, ba));
            // Rows are shared: the same tree has the same row.
            assert_eq!(ab, ba);
        }
    }
}

#[test]
fn generalise_is_associative() {
    let (mut t, ix) = sample();
    for i in &ix {
        for j in &ix {
            for k in &ix {
                let ij = t.generalise(*i, *j).unwrap();
                let left = t.generalise(ij, *k).unwrap();
                let jk = t.generalise(*j, *k).unwrap();
                let right = t.generalise(*i, jk).unwrap();
                assert_eq!(show(&t, left), show(&t, right));
            }
        }
    }
}

#[test]
fn generalise_of_a_missing_term_gives_nothing() {
    let (mut t, ix) = sample();
    let before = t.len();
    assert_eq!(t.generalise(ix[0], TermIdx(1000)), None);
    assert_eq!(t.generalise(TermIdx(1000), ix[0]), None);
    assert_eq!(t.generalise_pattern(TermIdx(1000)), None);
    assert_eq!(t.len(), before);
}

#[test]
fn generalise_pattern_replaces_the_variables() {
    let mut t = Terms::new();
    let x = add(&mut t, TermKind::Var(0), &[]);
    let y = add(&mut t, TermKind::Var(1), &[]);
    let c = add(&mut t, TermKind::App(9), &[]);
    let f = add(&mut t, TermKind::App(1), &[x, c]);
    let g = add(&mut t, TermKind::App(2), &[f, y]);
    let p = t.generalise_pattern(g).unwrap();
    assert_eq!(show(&t, p), "f2(f1(_,f9),_)");
    let again = t.generalise_pattern(g).unwrap();
    assert_eq!(p, again);
    let ground = t.generalise_pattern(c).unwrap();
    assert_eq!(ground, c);
    let var = t.generalise_pattern(x).unwrap();
    assert_eq!(show(&t, var), "_");
}

#[test]
fn new_term_wants_known_children() {
    let mut t = Terms::new();
    assert_eq!(t.len(), 0);
    let missing = Term { id: None, kind: TermKind::App(1), child_ids: vec![TermIdx(0)] };
    assert_eq!(t.new_term(missing), Err(Error::UnknownId));
    assert_eq!(t.len(), 0);
    let a = add(&mut t, TermKind::App(1), &[]);
    assert_eq!(a, TermIdx(0));
    let selfish = Term { id: None, kind: TermKind::App(1), child_ids: vec![TermIdx(1)] };
    assert_eq!(t.new_term(selfish), Err(Error::UnknownId));
    let b = add(&mut t, TermKind::App(2), &[a, a]);
    assert_eq!(b, TermIdx(1));
    assert_eq!(t.len(), 2);
    assert_eq!(t.index(b).child_ids, vec![a, a]);
    assert!(t.get(TermIdx(2)).is_none());
}

#[test]
fn meanings_and_quantifiers() {
    let mut t = Terms::new();
    let a = add(&mut t, TermKind::App(1), &[]);
    let q = add(&mut t, TermKind::Quant(QuantIdx(4)), &[a]);
    assert_eq!(t.meaning(a), None);
    let m = Meaning { theory: 3, value: 8 };
    t.new_meaning(a, m).unwrap();
    assert_eq!(t.meaning(a), Some(&m));
    t.new_meaning(a, m).unwrap();
    assert_eq!(t.meaning(a), Some(&m));
    assert_eq!(t.meaning(q), None);
    assert_eq!(t.quant(q), Ok(QuantIdx(4)));
    assert_eq!(t.quant(a), Err(Error::UnknownQuantifierIdx(a)));
    assert_eq!(t.quant(TermIdx(50)), Err(Error::UnknownQuantifierIdx(TermIdx(50))));
}

#[test]
fn generalising_again_finds_the_row_and_appends_nothing() {
    let (mut t, ix) = sample();
    // g(f(a,b)) and g(f(a,a)) generalise to g(f(a,_)): three new rows.
    let rows = t.len();
    let r = t.generalise(ix[5], ix[6]).unwrap();
    assert_eq!(show(&t, r), "f4(f3(f1,_))");
    assert_eq!(t.len(), rows + 3);
    assert_eq!(r, TermIdx(rows + 2));
    // Asked again, the table has every row; so it has for the other order.
    let grown = t.len();
    assert_eq!(t.generalise(ix[5], ix[6]), Some(r));
    assert_eq!(t.generalise(ix[6], ix[5]), Some(r));
    assert_eq!(t.len(), grown);
    // A row that the table has is found, not made: f(a,a) with f(a,a).
    assert_eq!(t.generalise(ix[3], ix[3]), Some(ix[3]));
    // The placeholder is shared by every generalisation that needs one.
    let hole = t.generalise(ix[0], ix[1]).unwrap();
    assert_eq!(hole, TermIdx(rows));
    assert_eq!(t.generalise(ix[0], ix[7]), Some(hole));
    assert_eq!(t.len(), grown);
}

#[test]
fn the_pattern_without_variables_is_shared_too() {
    let mut t = Terms::new();
    let x = add(&mut t, TermKind::Var(0), &[]);
    let a = add(&mut t, TermKind::App(1), &[]);
    let fxa = add(&mut t, TermKind::App(2), &[x, a]);
    let rows = t.len();
    let p = t.generalise_pattern(fxa).unwrap();
    assert_eq!(show(&t, p), "f2(_,f1)");
    // The placeholder and the row over it; `a` is found where it stands.
    assert_eq!(t.len(), rows + 2);
    assert_eq!(t.get(p).unwrap().child_ids, vec![TermIdx(rows), a]);
    assert_eq!(t.generalise_pattern(fxa), Some(p));
    assert_eq!(t.len(), rows + 2);
    // A pattern without variables is its own row.
    assert_eq!(t.generalise_pattern(a), Some(a));
    assert_eq!(t.generalise_pattern(TermIdx(99)), None);
}

#[test]
fn a_table_that_was_filled_row_by_row_is_sound() {
    let (t, _) = sample();
    assert!(t.is_sound());
    assert!(Terms::new().is_sound());
}
