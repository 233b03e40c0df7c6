use neon::ast::BinOp;
use neon::ops::{binary_ops, ops_at, MAX_PREC, MIN_PREC};

/// Every operator.
const ALL: &[BinOp] = &[
    BinOp::Add,
    BinOp::Sub,
    BinOp::Mul,
    BinOp::Div,
    BinOp::Rem,
    BinOp::Eq,
    BinOp::Ne,
    BinOp::Lt,
    BinOp::Le,
    BinOp::Gt,
    BinOp::Ge,
    BinOp::And,
    BinOp::Or,
    BinOp::Band,
    BinOp::Bor,
    BinOp::Bxor,
    BinOp::Bsl,
    BinOp::Bsr,
    BinOp::Orelse,
    BinOp::Pipe,
];

#[test]
fn table_covers_every_operator() {
    assert_eq!(ALL.len(), binary_ops().len());
    for op in ALL {
        assert_eq!(
            binary_ops().iter().filter(|i| i.op == *op).count(),
            1,
            "{op:?}"
        );
    }
}

#[test]
fn tokens_round_trip() {
    for op in ALL {
        assert_eq!(BinOp::from_token(&op.token()), Some(*op));
    }
}

#[test]
fn levels_are_contiguous() {
    for prec in MIN_PREC..=MAX_PREC {
        assert!(ops_at(prec).into_iter().next().is_some(), "level {prec} is empty");
    }
    assert!(binary_ops()
        .iter()
        .all(|i| (MIN_PREC..=MAX_PREC).contains(&i.prec)));
}

#[test]
fn ladder_is_the_documented_one() {
    assert!(BinOp::Orelse.prec() < BinOp::Or.prec());
    assert!(BinOp::Or.prec() < BinOp::And.prec());
    assert!(BinOp::And.prec() < BinOp::Eq.prec());
    assert!(BinOp::Eq.prec() < BinOp::Pipe.prec());
    assert!(BinOp::Pipe.prec() < BinOp::Bor.prec());
    assert!(BinOp::Bor.prec() < BinOp::Bxor.prec());
    assert!(BinOp::Bxor.prec() < BinOp::Band.prec());
    assert!(BinOp::Band.prec() < BinOp::Bsl.prec());
    assert!(BinOp::Bsl.prec() < BinOp::Add.prec());
    assert!(BinOp::Add.prec() < BinOp::Mul.prec());
}
