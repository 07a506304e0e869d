//! End-to-end (parse → compile) checks of the GIhA shared-head corners.

use fanva::gates::local_gates;
use fanva::logic::{LogicBuffer, LogicNode, LogicalTerm};

/// True if `base` or any of its role predicates (`base_xN`) appears.
fn has_pred_base(buf: &LogicBuffer, base: &str) -> bool {
    let role_prefix = format!("{base}_x");
    buf.nodes.iter().any(|n| {
        matches!(n, LogicNode::Predicate((rel, _)) if rel == base || rel.starts_with(&role_prefix))
    })
}

/// The variable names at arg position `pos` of every `role` predicate, in tree order.
fn role_vars_all(buf: &LogicBuffer, role: &str, pos: usize) -> Vec<String> {
    buf.nodes
        .iter()
        .filter_map(|n| match n {
            LogicNode::Predicate((rel, args)) if rel == role => match args.get(pos) {
                Some(LogicalTerm::Variable(v)) => Some(v.clone()),
                _ => None,
            },
            _ => None,
        })
        .collect()
}

/// Sorted, de-duplicated witness names at position `pos` of `role` (a set).
fn witness_set(buf: &LogicBuffer, role: &str, pos: usize) -> Vec<String> {
    let mut v = role_vars_all(buf, role, pos);
    v.sort();
    v.dedup();
    v
}

/// The single shared witness (asserts exactly one), read from `{base}_x1`.
fn the_one_witness(buf: &LogicBuffer, base: &str) -> String {
    let s = witness_set(buf, &format!("{base}_x1"), 1);
    assert_eq!(s.len(), 1, "expected exactly one `{base}` witness, got {s:?}");
    s.into_iter().next().unwrap()
}

#[test]
fn connected_head_binds_two_witnesses() {
    let buf = local_gates("lo gerku .e lo mlatu cu klama gi'e citka").expect("should compile");
    for base in ["gerku", "mlatu", "klama", "citka"] {
        assert!(has_pred_base(&buf, base), "missing `{base}`: {:?}", buf.nodes);
    }
    assert!(
        matches!(&buf.nodes[buf.roots[0] as usize], LogicNode::AndNode(_)),
        "head `.e` must join the operand units with And, got {:?}",
        buf.nodes[buf.roots[0] as usize]
    );
    let klama = witness_set(&buf, "klama_x1", 1);
    let citka = witness_set(&buf, "citka_x1", 1);
    assert_eq!(klama.len(), 2, "two distinct klama witnesses: {klama:?}");
    assert_eq!(
        klama, citka,
        "klama and citka must run under the SAME two witnesses (per-operand sharing): \
         klama={klama:?} citka={citka:?}"
    );
}

#[test]
fn connected_head_reresolves_other_witness() {
    let buf = local_gates("lo gerku fe mi .e do cu klama gi'e citka").expect("should compile");
    assert_eq!(
        witness_set(&buf, "gerku_x1", 1).len(),
        2,
        "`lo gerku` must be re-resolved into two distinct witnesses: {:?}",
        role_vars_all(&buf, "gerku_x1", 1)
    );
}

#[test]
fn connected_head_and_modal_tail() {
    let buf =
        local_gates("lo gerku .e lo mlatu cu klama gi'e bajra ri'a mi").expect("should compile");
    assert_eq!(witness_set(&buf, "klama_x1", 1).len(), 2, "two operand witnesses");
    assert_eq!(
        role_vars_all(&buf, "rinka", 1).len(),
        2,
        "the tail modal runs once per distributed operand: {:?}",
        role_vars_all(&buf, "rinka", 1)
    );
}

#[test]
fn modal_in_head_shares_one_witness() {
    let buf = local_gates("lo gerku ri'a mi cu klama gi'e bajra").expect("should compile");
    let w = the_one_witness(&buf, "gerku");
    for role in ["klama_x1", "bajra_x1"] {
        for var in role_vars_all(&buf, role, 1) {
            assert_eq!(var, w, "{role} must carry the shared witness");
        }
    }
    let rinka = role_vars_all(&buf, "rinka", 1);
    assert_eq!(rinka.len(), 1, "head modal conjoined once: {rinka:?}");
    assert_eq!(rinka[0], w, "the head modal must link to the shared witness");
}

#[test]
fn modal_in_tail_shares_one_witness() {
    let buf = local_gates("lo gerku cu klama gi'e bajra ri'a mi").expect("should compile");
    let w = the_one_witness(&buf, "gerku");
    let rinka = role_vars_all(&buf, "rinka", 1);
    assert_eq!(rinka.len(), 1, "tail modal appears once: {rinka:?}");
    assert_eq!(rinka[0], w, "tail modal must link to the shared witness");
    for var in role_vars_all(&buf, "bajra_x1", 1) {
        assert_eq!(var, w);
    }
}

#[test]
fn connected_tail_distributes_under_one_witness() {
    let buf =
        local_gates("lo gerku cu klama gi'e citka lo plise .e lo badna").expect("should compile");
    let w = the_one_witness(&buf, "gerku");
    assert!(
        has_pred_base(&buf, "plise") && has_pred_base(&buf, "badna"),
        "both operands must survive"
    );
    let citka = role_vars_all(&buf, "citka_x1", 1);
    assert_eq!(citka.len(), 2, "the tail must distribute to two citka: {citka:?}");
    for var in &citka {
        assert_eq!(*var, w, "each distributed citka shares the head witness");
    }
}

#[test]
fn connected_under_head_modal_fails_closed() {
    assert!(
        local_gates("lo gerku ri'a mi .e do cu klama gi'e bajra").is_err(),
        "a connected sumti under a head BAI modal must fail closed"
    );
}
