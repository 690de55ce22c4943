use smt_log_parser::error::Either;
use smt_log_parser::idx::{ENodeIdx, EqTransIdx, MatchIdx, QuantIdx, TermIdx};
use smt_log_parser::items::{Blame, BlameKind, Fingerprint, Instantiation, Match, MatchKind, TermId};

fn term_blame(i: usize) -> BlameKind {
    BlameKind::Term { term: ENodeIdx(i) }
}

fn eq_blame(i: usize) -> BlameKind {
    BlameKind::Equality { eq: EqTransIdx(i) }
}

fn quantifier_match(blamed: Vec<BlameKind>) -> Match {
    Match {
        kind: MatchKind::Quantifier { quant: QuantIdx(3), pattern: TermIdx(9), bound_terms: vec![] },
        blamed,
    }
}

#[test]
fn trigger_matches_cut_before_every_term_but_the_first() {
    let m = quantifier_match(vec![
        term_blame(0),
        eq_blame(10),
        eq_blame(11),
        term_blame(1),
        term_blame(2),
        eq_blame(12),
    ]);
    let blames = m.trigger_matches();
    assert_eq!(blames.len(), 3);
    assert!(blames.iter().all(|b| b.is_well_formed()));
    assert_eq!(blames[0].enode(), ENodeIdx(0));
    assert_eq!(blames[0].equalities_len(), 2);
    assert_eq!(blames[0].equalities(), vec![EqTransIdx(10), EqTransIdx(11)]);
    assert_eq!(*blames[0].index(1), EqTransIdx(11));
    assert_eq!(blames[1].enode(), ENodeIdx(1));
    assert_eq!(blames[1].equalities_len(), 0);
    assert_eq!(blames[1].equalities(), Vec::<EqTransIdx>::new());
    assert_eq!(blames[2].enode(), ENodeIdx(2));
    assert_eq!(blames[2].equalities(), vec![EqTransIdx(12)]);
}

#[test]
fn trigger_matches_of_odd_blame_lists() {
    assert_eq!(quantifier_match(vec![]).trigger_matches().len(), 0);
    assert_eq!(quantifier_match(vec![eq_blame(1), eq_blame(2)]).trigger_matches().len(), 0);
    // Equalities before the first term stay with the first piece.
    let m = quantifier_match(vec![eq_blame(1), term_blame(0), eq_blame(2), term_blame(5)]);
    let blames = m.trigger_matches();
    assert_eq!(blames.len(), 2);
    assert!(!blames[0].is_well_formed());
    assert_eq!(blames[0].equalities_len(), 2);
    assert!(blames[1].is_well_formed());
    assert_eq!(blames[1].enode(), ENodeIdx(5));
    let one = quantifier_match(vec![term_blame(7)]);
    let blames = one.trigger_matches();
    assert_eq!(blames.len(), 1);
    assert_eq!(blames[0].enode(), ENodeIdx(7));
}

#[test]
fn blame_over_a_slice() {
    let entries = vec![term_blame(4), eq_blame(6)];
    let blame = Blame::new(&entries);
    assert!(blame.is_well_formed());
    assert_eq!(blame.enode(), ENodeIdx(4));
    assert_eq!(blame.equalities(), vec![EqTransIdx(6)]);
    let empty: Vec<BlameKind> = vec![];
    assert!(!Blame::new(&empty).is_well_formed());
    let two_terms = vec![term_blame(4), term_blame(5)];
    assert!(!Blame::new(&two_terms).is_well_formed());
    assert_eq!(*term_blame(3).unwrap_enode(), ENodeIdx(3));
    assert_eq!(*eq_blame(8).unwrap_eq(), EqTransIdx(8));
}

#[test]
fn match_kinds_tell_quantifier_and_pattern() {
    let mbqi = MatchKind::MBQI { quant: QuantIdx(1), bound_terms: vec![ENodeIdx(5), ENodeIdx(6)] };
    let theory = MatchKind::TheorySolving {
        axiom_id: TermId { namespace: 2, id: Some(7) },
        bound_terms: vec![TermIdx(3)],
        rewrite_of: Some(TermIdx(8)),
    };
    let ax = MatchKind::Axiom { quant: QuantIdx(2), pattern: TermIdx(4), bound_terms: vec![TermIdx(1)] };
    let quant = MatchKind::Quantifier { quant: QuantIdx(3), pattern: TermIdx(5), bound_terms: vec![] };

    assert_eq!(mbqi.quant_idx(), Some(QuantIdx(1)));
    assert_eq!(theory.quant_idx(), None);
    assert_eq!(ax.quant_idx(), Some(QuantIdx(2)));
    assert_eq!(quant.quant_idx(), Some(QuantIdx(3)));

    assert_eq!(mbqi.pattern(), None);
    assert_eq!(theory.pattern(), None);
    assert_eq!(ax.pattern(), Some(TermIdx(4)));
    assert_eq!(quant.pattern(), Some(TermIdx(5)));

    assert!(theory.is_discovered());
    assert!(!mbqi.is_discovered());
    assert!(mbqi.is_mbqi());
    assert!(!quant.is_mbqi());
    assert_eq!(theory.rewrite_of(), Some(TermIdx(8)));
    assert_eq!(ax.rewrite_of(), None);

    let of_enode = |e: ENodeIdx| e.0 * 10;
    let of_term = |t: TermIdx| t.0 + 1;
    assert_eq!(mbqi.bound_terms(of_enode, of_term), vec![50, 60]);
    assert_eq!(theory.bound_terms(of_enode, of_term), vec![4]);
    assert_eq!(ax.bound_terms(of_enode, of_term), vec![2]);
    assert_eq!(quant.bound_terms(of_enode, of_term), Vec::<usize>::new());
}

#[test]
fn resulting_term_is_the_registered_proof() {
    let mut inst = Instantiation {
        match_: MatchIdx(0),
        fingerprint: Fingerprint(0xabc),
        proof_id: None,
        z3_generation: Some(2),
        yields_terms: vec![],
    };
    assert_eq!(inst.get_resulting_term(), None);
    inst.proof_id = Some(Either::Left(TermIdx(12)));
    assert_eq!(inst.get_resulting_term(), Some(TermIdx(12)));
    inst.proof_id = Some(Either::Right(TermId { namespace: 0, id: Some(1) }));
    assert_eq!(inst.get_resulting_term(), None);
    let e: Either<u8, u16> = Either::Right(9);
    assert_eq!(e.as_result(), Err(&9));
    let e: Either<u8, u16> = Either::Left(3);
    assert_eq!(e.as_result(), Ok(&3));
    assert_eq!(inst.fingerprint.value(), 0xabc);
    assert!(!inst.fingerprint.is_zero());
}

#[test]
fn fingerprint_takes_plus_and_both_cases() {
    assert_eq!(Fingerprint::parse("+1F"), Ok(Fingerprint(31)));
    assert_eq!(Fingerprint::parse("0x+a"), Ok(Fingerprint(10)));
    assert_eq!(Fingerprint::parse("0XFF").is_err(), true);
    assert_eq!(Fingerprint::parse("+").is_err(), true);
    assert_eq!(Fingerprint::parse("-1").is_err(), true);
    assert_eq!(Fingerprint::parse(" 1").is_err(), true);
    assert_eq!(Fingerprint::parse("1_0").is_err(), true);
    assert_eq!(Fingerprint::parse("0x0000000000000000000012"), Ok(Fingerprint(0x12)));
    assert_eq!(Fingerprint::parse("deadBEEF"), Ok(Fingerprint(0xdead_beef)));
}
