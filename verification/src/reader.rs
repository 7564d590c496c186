//! Command-line configuration.
//!
//! The program takes a puzzle file name and an optional 1-based puzzle
//! number. Reading the file itself is I/O and stays outside the library;
//! this module only interprets the argument list.

use vstd::prelude::*;
use vstd::string::StringExecFns;
use vstd::string::StringSliceAdditionalSpecFns;
use vstd::utf8::encode_utf8;

verus! {

/// The decimal value of a digit string, most significant digit first.
pub open spec fn dec_value(bs: Seq<u8>) -> int
    decreases bs.len(),
{
    if bs.len() == 0 {
        0
    } else {
        dec_value(bs.drop_last()) * 10 + (bs.last() - 48)
    }
}

/// Every byte is an ASCII digit.
pub open spec fn all_digits(bs: Seq<u8>) -> bool {
    forall|i: int| 0 <= i < bs.len() ==> 48 <= #[trigger] bs[i] <= 57
}

/// The text with one optional leading plus sign removed, as the standard
/// unsigned parser treats it.
pub open spec fn strip_plus(bs: Seq<u8>) -> Seq<u8> {
    if bs.len() >= 1 && bs[0] == 43u8 {
        bs.drop_first()
    } else {
        bs
    }
}

proof fn lemma_dec_value_nonneg(bs: Seq<u8>)
    requires
        all_digits(bs),
    ensures
        dec_value(bs) >= 0,
    decreases bs.len(),
{
    if bs.len() > 0 {
        assert(all_digits(bs.drop_last())) by {
            assert(forall|i: int|
                0 <= i < bs.len() - 1 ==> 48 <= #[trigger] bs.drop_last()[i] <= 57);
        }
        lemma_dec_value_nonneg(bs.drop_last());
    }
}

proof fn lemma_dec_value_mono(bs: Seq<u8>, i: int)
    requires
        all_digits(bs),
        0 <= i <= bs.len(),
    ensures
        dec_value(bs.subrange(0, i)) <= dec_value(bs),
    decreases bs.len() - i,
{
    if i < bs.len() {
        lemma_dec_value_mono(bs, i + 1);
        let p = bs.subrange(0, i);
        let q = bs.subrange(0, i + 1);
        assert(q.drop_last() =~= p);
        assert(all_digits(p)) by {
            assert(forall|k: int| 0 <= k < p.len() ==> 48 <= #[trigger] p[k] <= 57);
        }
        lemma_dec_value_nonneg(p);
        assert(dec_value(q) == dec_value(p) * 10 + (q.last() - 48));
        assert(dec_value(p) <= dec_value(p) * 10) by (nonlinear_arith)
            requires
                dec_value(p) >= 0,
        ;
    } else {
        assert(bs.subrange(0, i) =~= bs);
    }
}

/// Parses an unsigned decimal number, accepting one optional leading plus
/// sign as the standard parser does; `None` when no digits remain, a
/// non-digit appears, or the value does not fit.
pub fn parse_usize(bs: &[u8]) -> (r: Option<usize>)
    ensures
        r is Some <==> (strip_plus(bs@).len() >= 1 && all_digits(strip_plus(bs@)) && dec_value(
            strip_plus(bs@),
        ) <= usize::MAX),
        r matches Some(v) ==> v == dec_value(strip_plus(bs@)),
{
    let n = bs.len();
    let start: usize = if n >= 1 && bs[0] == 43u8 {
        1
    } else {
        0
    };
    let ghost eff = strip_plus(bs@);
    proof {
        assert(eff =~= bs@.subrange(start as int, n as int));
    }
    if n == start {
        proof {
            assert(eff.len() == 0);
        }
        return None;
    }
    let mut acc: usize = 0;
    let mut i: usize = start;
    while i < n
        invariant
            n == bs@.len(),
            start <= i <= n,
            start <= 1,
            eff == strip_plus(bs@),
            eff =~= bs@.subrange(start as int, n as int),
            all_digits(eff.subrange(0, i - start)),
            acc == dec_value(eff.subrange(0, i - start)),
        decreases n - i,
    {
        let c = bs[i];
        proof {
            assert(eff[i - start] == bs@[i as int]);
        }
        if c < 48 || c > 57 {
            proof {
                assert(!all_digits(eff));
            }
            return None;
        }
        let d = (c - 48) as usize;
        let ghost pre = eff.subrange(0, i - start);
        let ghost cur = eff.subrange(0, i + 1 - start);
        proof {
            assert(cur.drop_last() =~= pre);
            assert(cur.last() == c);
            assert(all_digits(cur)) by {
                assert(forall|k: int| 0 <= k < cur.len() ==> 48 <= #[trigger] cur[k] <= 57);
            }
        }
        let step = match acc.checked_mul(10) {
            Some(t) => t.checked_add(d),
            None => None,
        };
        match step {
            Some(v) => {
                acc = v;
            },
            None => {
                proof {
                    if all_digits(eff) {
                        lemma_dec_value_mono(eff, i + 1 - start);
                        assert(dec_value(cur) > usize::MAX);
                    }
                }
                return None;
            },
        }
        i = i + 1;
    }
    proof {
        assert(eff.subrange(0, n - start) =~= eff);
    }
    Some(acc)
}

/// What the command line asked for: a puzzle file and, optionally, the
/// 1-based number of a single puzzle within it.
#[derive(Debug)]
pub struct Config {
    pub filename: String,
    pub question_number: Option<usize>,
}

impl Config {
    /// Interprets the argument list (the program name first). Two or three
    /// arguments are accepted; a third must be a number.
    pub fn new(args: &Vec<String>) -> (r: Result<Config, String>)
        ensures
            r is Ok <==> (2 <= args@.len() <= 3 && (args@.len() == 3 ==> (strip_plus(
                encode_utf8(args@[2]@),
            ).len() >= 1 && all_digits(strip_plus(encode_utf8(args@[2]@))) && dec_value(
                strip_plus(encode_utf8(args@[2]@)),
            ) <= usize::MAX))),
            r matches Ok(c) ==> c.filename@ == args@[1]@ && (args@.len() == 2 ==> c.question_number
                is None) && (args@.len() == 3 ==> c.question_number == Some(
                dec_value(strip_plus(encode_utf8(args@[2]@))) as usize,
            )),
    {
        if args.len() <= 1 || args.len() > 3 {
            return Err(String::from_str("Incorrect number of args: must have 2 or 3."));
        }
        let filename = args[1].clone();
        let question_number = if args.len() == 3 {
            let a2 = args[2].as_str();
            match parse_usize(a2.as_bytes()) {
                Some(v) => Some(v),
                None => {
                    return Err(String::from_str("puzzle number is not a number"));
                },
            }
        } else {
            None
        };
        Ok(Config { filename, question_number })
    }
}

} // verus!
