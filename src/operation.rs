use vstd::prelude::*;
use crate::text::micro;
use crate::value::{LogValue, Val};

verus! {

/// The kind of streaming reducer that a field is folded with.
#[derive(Clone, Copy, Debug, PartialEq, Eq, Structural)]
pub enum OpType {
    Count,
    Average,
}

/// A streaming reducer: its running state.
#[derive(Clone, Copy, Debug, PartialEq, Eq, Structural)]
pub enum Operation {
    /// How many values were observed (saturating at `i64::MAX`).
    Count { count: u64 },
    /// Sum, in millionths, and number of the numeric values observed.
    Average { sum: i128, count: u64 },
}

/// A value as millionths, where it is numeric and fits in `i64` so.
pub open spec fn numeric(v: Val) -> Option<int> {
    match v {
        Val::Integer(i) => if -(i64::MAX as int) <= i * micro() <= i64::MAX {
            Some(i * micro())
        } else {
            None
        },
        Val::Float(m) => Some(m),
        Val::Second(m) => Some(m),
        _ => None,
    }
}

/// Division that rounds toward zero.
pub open spec fn trunc_div(a: int, b: int) -> int {
    if a >= 0 {
        a / b
    } else {
        -((-a) / b)
    }
}

/// A fresh reducer of kind `k`.
pub open spec fn fresh(k: OpType) -> Operation {
    match k {
        OpType::Count => Operation::Count { count: 0 },
        OpType::Average => Operation::Average { sum: 0, count: 0 },
    }
}

/// The state after observing `v`.
pub open spec fn op_after(op: Operation, v: Val) -> Operation {
    match op {
        Operation::Count { count } => Operation::Count {
            count: if count < i64::MAX { (count + 1) as u64 } else { count },
        },
        Operation::Average { sum, count } => match numeric(v) {
            Some(m) => if count < u64::MAX {
                Operation::Average { sum: (sum + m) as i128, count: (count + 1) as u64 }
            } else {
                op
            },
            None => op,
        },
    }
}

/// The aggregate that a state stands for.
pub open spec fn op_value(op: Operation) -> Val {
    match op {
        Operation::Count { count } => Val::Integer(count as int),
        Operation::Average { sum, count } => if count == 0 {
            Val::Absent
        } else {
            Val::Float(trunc_div(sum as int, count as int))
        },
    }
}

/// The state after observing `vs`, in order.
pub open spec fn ops_after(op: Operation, vs: Seq<LogValue>) -> Operation
    decreases vs.len(),
{
    if vs.len() == 0 {
        op
    } else {
        op_after(ops_after(op, vs.drop_last()), vs.last()@)
    }
}

/// How many of `vs` are numeric.
pub open spec fn numeric_count(vs: Seq<LogValue>) -> int
    decreases vs.len(),
{
    if vs.len() == 0 {
        0
    } else {
        numeric_count(vs.drop_last()) + if numeric(vs.last()@) is Some { 1int } else { 0int }
    }
}

/// The sum, in millionths, of the numeric values among `vs`.
pub open spec fn numeric_sum(vs: Seq<LogValue>) -> int
    decreases vs.len(),
{
    if vs.len() == 0 {
        0
    } else {
        numeric_sum(vs.drop_last()) + match numeric(vs.last()@) {
            Some(m) => m,
            None => 0,
        }
    }
}

/// A count is the number of values observed, whatever they are.
pub proof fn lemma_count_counts_every_value(vs: Seq<LogValue>)
    requires
        vs.len() <= i64::MAX,
    ensures
        ops_after(fresh(OpType::Count), vs) == (Operation::Count { count: vs.len() as u64 }),
        op_value(ops_after(fresh(OpType::Count), vs)) == Val::Integer(vs.len() as int),
    decreases vs.len(),
{
    if vs.len() > 0 {
        lemma_count_counts_every_value(vs.drop_last());
    }
}

/// An average is the mean, rounded toward zero, of the numeric values observed
/// (absent where there are none); other values leave it as it was.
pub proof fn lemma_average_of_numeric_values(vs: Seq<LogValue>)
    requires
        numeric_count(vs) <= u64::MAX,
    ensures
        ops_after(fresh(OpType::Average), vs) == (Operation::Average {
            sum: numeric_sum(vs) as i128,
            count: numeric_count(vs) as u64,
        }),
        ops_after(fresh(OpType::Average), vs).wf(),
        numeric_sum(vs) == numeric_sum(vs) as i128,
        op_value(ops_after(fresh(OpType::Average), vs)) == if numeric_count(vs) == 0 {
            Val::Absent
        } else {
            Val::Float(trunc_div(numeric_sum(vs), numeric_count(vs)))
        },
    decreases vs.len(),
{
    if vs.len() > 0 {
        let prev = vs.drop_last();
        assert(numeric_count(prev) >= 0) by {
            lemma_numeric_count_nonneg(prev);
        }
        lemma_average_of_numeric_values(prev);
        let c = numeric_count(prev);
        let s = numeric_sum(prev);
        match numeric(vs.last()@) {
            Some(m) => {
                assert(-0x8000_0000_0000_0000 <= m <= i64::MAX);
                assert((c + 1) * i64::MAX == c * i64::MAX + i64::MAX) by (nonlinear_arith);
                assert((c + 1) * 0x8000_0000_0000_0000 == c * 0x8000_0000_0000_0000
                    + 0x8000_0000_0000_0000) by (nonlinear_arith);
                assert((c + 1) * 0x8000_0000_0000_0000 <= u64::MAX * 0x8000_0000_0000_0000)
                    by (nonlinear_arith)
                    requires
                        c + 1 <= u64::MAX,
                ;
            },
            None => {},
        }
    }
}

proof fn lemma_numeric_count_nonneg(vs: Seq<LogValue>)
    ensures
        numeric_count(vs) >= 0,
    decreases vs.len(),
{
    if vs.len() > 0 {
        lemma_numeric_count_nonneg(vs.drop_last());
    }
}

impl Operation {
    /// The state stays within the machine's integers.
    pub open spec fn wf(&self) -> bool {
        match *self {
            Operation::Count { count } => count <= i64::MAX,
            Operation::Average { sum, count } => -(count * 0x8000_0000_0000_0000) <= sum <= count * i64::MAX,
        }
    }

    /// A reducer of kind `k` that has observed nothing.
    pub fn new(k: OpType) -> (r: Operation)
        ensures
            r == fresh(k),
            r.wf(),
    {
        match k {
            OpType::Count => Operation::Count { count: 0 },
            OpType::Average => Operation::Average { sum: 0, count: 0 },
        }
    }

    /// Folds one observed value into the state. A count grows on every value,
    /// absent ones included; an average takes numeric values only.
    pub fn update(&mut self, v: &LogValue)
        requires
            old(self).wf(),
        ensures
            *final(self) == op_after(*old(self), v@),
            final(self).wf(),
    {
        match *self {
            Operation::Count { count } => {
                if count < 0x7fff_ffff_ffff_ffffu64 {
                    *self = Operation::Count { count: count + 1 };
                }
            },
            Operation::Average { sum, count } => {
                let m: Option<i64> = match v {
                    LogValue::Integer(i) => {
                        if -0x7fff_ffff_ffff_ffffi128 <= (*i as i128) * 1000000 && (*i as i128)
                            * 1000000 <= 0x7fff_ffff_ffff_ffffi128 {
                            Some(((*i as i128) * 1000000) as i64)
                        } else {
                            None
                        }
                    },
                    LogValue::Float(x) => Some(*x),
                    LogValue::Second(x) => Some(*x),
                    _ => None,
                };
                match m {
                    Some(x) => {
                        if count < 0xffff_ffff_ffff_ffffu64 {
                            proof {
                                assert((count + 1) * i64::MAX == count * i64::MAX + i64::MAX)
                                    by (nonlinear_arith);
                                assert((count + 1) * 0x8000_0000_0000_0000 == count
                                    * 0x8000_0000_0000_0000 + 0x8000_0000_0000_0000)
                                    by (nonlinear_arith);
                                assert(count * 0x8000_0000_0000_0000 <= u64::MAX
                                    * 0x8000_0000_0000_0000) by (nonlinear_arith)
                                    requires
                                        count <= u64::MAX,
                                ;
                                assert(count * i64::MAX <= u64::MAX * i64::MAX)
                                    by (nonlinear_arith)
                                    requires
                                        count <= u64::MAX,
                                ;
                            }
                            *self = Operation::Average { sum: sum + x as i128, count: count + 1 };
                        }
                    },
                    None => {},
                }
            },
        }
    }

    /// The current aggregate: the count, or the mean rounded toward zero
    /// (absent before any numeric value).
    pub fn value(&self) -> (r: LogValue)
        requires
            self.wf(),
        ensures
            r@ == op_value(*self),
    {
        match *self {
            Operation::Count { count } => LogValue::Integer(count as i64),
            Operation::Average { sum, count } => {
                if count == 0 {
                    LogValue::Absent
                } else {
                    let c = count as u128;
                    if sum >= 0 {
                        let q = (sum as u128) / c;
                        proof {
                            assert(q * c <= sum) by (nonlinear_arith)
                                requires
                                    q == sum as int / c as int,
                                    c > 0,
                                    sum >= 0,
                            ;
                            assert(q <= i64::MAX) by (nonlinear_arith)
                                requires
                                    q * c <= sum,
                                    sum <= c * i64::MAX,
                                    c > 0,
                                    q >= 0,
                            ;
                        }
                        LogValue::Float(q as i64)
                    } else {
                        let q = ((-sum) as u128) / c;
                        proof {
                            assert(q * c <= -sum) by (nonlinear_arith)
                                requires
                                    q == (-sum) as int / c as int,
                                    c > 0,
                                    sum < 0,
                            ;
                            assert(q <= 0x8000_0000_0000_0000) by (nonlinear_arith)
                                requires
                                    q * c <= -sum,
                                    -sum <= c * 0x8000_0000_0000_0000,
                                    c > 0,
                                    q >= 0,
                            ;
                        }
                        LogValue::Float((-(q as i128)) as i64)
                    }
                }
            },
        }
    }
}

} // verus!
