use vstd::prelude::*;
use vstd::string::StringExecFns;

verus! {

/// The value that evaluating a statement produces.
#[derive(Debug, Clone, Copy, PartialEq, Eq, Structural)]
pub enum Val {
    Number(i32),
    Unit,
}

pub open spec fn digit(d: int) -> char {
    seq!['0', '1', '2', '3', '4', '5', '6', '7', '8', '9'][d]
}

/// The decimal digits of `n`, most significant first.
pub open spec fn digits_of(n: nat) -> Seq<char>
    decreases n,
{
    if n < 10 {
        seq![digit(n as int)]
    } else {
        digits_of(n / 10).push(digit((n % 10) as int))
    }
}

/// `n` written in decimal, with a leading `-` when it is negative.
pub open spec fn decimal(n: int) -> Seq<char> {
    if n < 0 {
        seq!['-'] + digits_of((-n) as nat)
    } else {
        digits_of(n as nat)
    }
}

pub open spec fn rendering(v: Val) -> Seq<char> {
    match v {
        Val::Number(n) => decimal(n as int),
        Val::Unit => seq!['U', 'n', 'i', 't'],
    }
}

fn digit_text(d: u64) -> (r: &'static str)
    requires
        d < 10,
    ensures
        r@ == seq![digit(d as int)],
{
    proof {
        reveal_strlit("0");
        reveal_strlit("1");
        reveal_strlit("2");
        reveal_strlit("3");
        reveal_strlit("4");
        reveal_strlit("5");
        reveal_strlit("6");
        reveal_strlit("7");
        reveal_strlit("8");
        reveal_strlit("9");
    }
    let r = if d == 0 {
        "0"
    } else if d == 1 {
        "1"
    } else if d == 2 {
        "2"
    } else if d == 3 {
        "3"
    } else if d == 4 {
        "4"
    } else if d == 5 {
        "5"
    } else if d == 6 {
        "6"
    } else if d == 7 {
        "7"
    } else if d == 8 {
        "8"
    } else {
        "9"
    };
    assert(r@ =~= seq![digit(d as int)]);
    r
}

/// The digits of a number of two or more digits: those of `n / 10`, then
/// the last one.
proof fn lemma_digits_split(n: nat)
    requires
        n >= 10,
    ensures
        digits_of(n) == digits_of(n / 10) + seq![digit((n % 10) as int)],
{
    assert(digits_of(n / 10).push(digit((n % 10) as int)) =~= digits_of(n / 10) + seq![digit((n % 10) as int)]);
}

impl Val {
    /// The value as the read-eval-print loop shows it: a number in decimal,
    /// or the word `Unit`.
    pub fn render(&self) -> (r: String)
        ensures
            r@ == rendering(*self),
    {
        match self {
            Val::Unit => {
                proof {
                    reveal_strlit("Unit");
                    assert("Unit"@ =~= seq!['U', 'n', 'i', 't']);
                }
                String::from_str("Unit")
            },
            Val::Number(n) => {
                let negative = *n < 0;
                let m: u64 = if negative {
                    (-(*n as i64)) as u64
                } else {
                    *n as u64
                };
                let ghost whole = m as nat;
                let mut low: Vec<u64> = Vec::new();
                let mut q = m;
                while q >= 10
                    invariant
                        q <= m,
                        forall|j: int| 0 <= j < low@.len() ==> #[trigger] low@[j] < 10,
                        digits_of(whole) == digits_of(q as nat) + Seq::new(
                            low@.len(),
                            |j: int| digit(low@[low@.len() - 1 - j] as int),
                        ),
                    decreases q,
                {
                    proof {
                        lemma_digits_split(q as nat);
                        let old_tail = Seq::new(low@.len(), |j: int| digit(low@[low@.len() - 1 - j] as int));
                        let new_low = low@.push(q % 10);
                        let new_tail = Seq::new(new_low.len(), |j: int| digit(new_low[new_low.len() - 1 - j] as int));
                        assert(new_tail =~= seq![digit((q % 10) as int)] + old_tail);
                        assert(digits_of(q as nat) + old_tail =~= digits_of((q / 10) as nat) + new_tail);
                    }
                    low.push(q % 10);
                    q = q / 10;
                }
                let mut out = if negative {
                    proof {
                        reveal_strlit("-");
                    }
                    String::from_str("-")
                } else {
                    String::new()
                };
                let ghost sign = out@;
                out.append(digit_text(q));
                let mut i = low.len();
                while i > 0
                    invariant
                        i <= low@.len(),
                        forall|j: int| 0 <= j < low@.len() ==> #[trigger] low@[j] < 10,
                        out@ == sign + digits_of(q as nat) + Seq::new(
                            (low@.len() - i) as nat,
                            |j: int| digit(low@[low@.len() - 1 - j] as int),
                        ),
                    decreases i,
                {
                    let ghost before = out@;
                    out.append(digit_text(low[i - 1]));
                    proof {
                        let k = (low@.len() - i) as nat;
                        let a = Seq::new(k, |j: int| digit(low@[low@.len() - 1 - j] as int));
                        let b = Seq::new(k + 1, |j: int| digit(low@[low@.len() - 1 - j] as int));
                        assert(b =~= a.push(digit(low@[i - 1] as int)));
                        assert(out@ =~= sign + digits_of(q as nat) + b);
                    }
                    i = i - 1;
                }
                proof {
                    assert(digits_of(q as nat) =~= seq![digit(q as int)]);
                    let tail = Seq::new(low@.len(), |j: int| digit(low@[low@.len() - 1 - j] as int));
                    assert(out@ =~= sign + (digits_of(q as nat) + tail));
                    if negative {
                        reveal_strlit("-");
                        assert(sign =~= seq!['-']);
                    } else {
                        assert(sign =~= Seq::<char>::empty());
                    }
                }
                out
            },
        }
    }
}

} // verus!
