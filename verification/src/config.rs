//! Run configuration: output mode selection, count validation, and the
//! degradation policy applied before sampling starts.

use vstd::prelude::*;

verus! {

/// How results are rendered.
#[derive(Debug, Clone, Copy, PartialEq, Eq, Structural)]
pub enum OutputMode {
    Table,
    Readable,
    CSV,
}

impl OutputMode {
    /// Chooses the output mode from the three mutually exclusive display
    /// flags, consulted in order; human-readable text is the default.
    pub fn from_flags(table: bool, readable: bool, csv: bool) -> (m: OutputMode)
        ensures
            m == (if table {
                OutputMode::Table
            } else if readable {
                OutputMode::Readable
            } else if csv {
                OutputMode::CSV
            } else {
                OutputMode::Readable
            }),
    {
        if table {
            OutputMode::Table
        } else if readable {
            OutputMode::Readable
        } else if csv {
            OutputMode::CSV
        } else {
            OutputMode::Readable
        }
    }
}

/// Why a run cannot proceed as requested.
#[derive(Debug, Clone, Copy, PartialEq, Eq, Structural)]
pub enum PlanError {
    /// The catalog holds no shows.
    EmptyCatalog,
    /// The candidate list holds no entries.
    EmptyList,
    /// More results were requested than the candidate list has entries,
    /// under hard failure.
    NotEnoughCandidates,
}

/// The number of draws a run will attempt: the requested count, lowered to
/// the number of distinct candidate values when the request exceeds it,
/// unless hard failure is set; empty inputs are configuration errors.
pub open spec fn plan_run_spec(
    catalog_len: usize,
    list: Seq<usize>,
    requested: usize,
    hard_fail: bool,
) -> Result<usize, PlanError> {
    if catalog_len == 0 {
        Err(PlanError::EmptyCatalog)
    } else if list.len() == 0 {
        Err(PlanError::EmptyList)
    } else if requested <= list.to_set().len() {
        Ok(requested)
    } else if hard_fail {
        Err(PlanError::NotEnoughCandidates)
    } else {
        Ok(list.to_set().len() as usize)
    }
}

/// Validates the run configuration and applies the degradation policy,
/// lowering the requested result count to the number of distinct candidate
/// values when the request exceeds it (or refusing, under hard failure).
pub fn plan_run(catalog_len: usize, list: &Vec<usize>, requested: usize, hard_fail: bool) -> (r:
    Result<usize, PlanError>)
    ensures
        r == plan_run_spec(catalog_len, list@, requested, hard_fail),
{
    if catalog_len == 0 {
        Err(PlanError::EmptyCatalog)
    } else if list.len() == 0 {
        Err(PlanError::EmptyList)
    } else {
        let distinct = crate::sampling::distinct_count(list);
        if requested <= distinct {
            Ok(requested)
        } else if hard_fail {
            Err(PlanError::NotEnoughCandidates)
        } else {
            Ok(distinct)
        }
    }
}

/// Degradation counts distinct candidates: a request exceeding the number
/// of distinct candidate values is lowered to exactly that number, or
/// refused under hard failure, before any sampling.
pub proof fn lemma_degrade_to_distinct(
    list: Seq<usize>,
    catalog_len: usize,
    requested: usize,
    hard_fail: bool,
)
    requires
        list.len() > 0,
        catalog_len > 0,
        requested > list.to_set().len(),
    ensures
        hard_fail ==> plan_run_spec(catalog_len, list, requested, hard_fail) == Err::<
            usize,
            PlanError,
        >(PlanError::NotEnoughCandidates),
        !hard_fail ==> plan_run_spec(catalog_len, list, requested, hard_fail) == Ok::<
            usize,
            PlanError,
        >(list.to_set().len() as usize),
{
}

/// Whether the run's failures become a non-zero process exit: only under
/// hard failure; otherwise a reported failure still exits cleanly.
pub fn exit_failure(hard_fail: bool, any_failure: bool) -> (r: bool)
    ensures
        r == (hard_fail && any_failure),
{
    hard_fail && any_failure
}

/// Whether `c` is a decimal digit.
pub open spec fn is_digit(c: char) -> bool {
    '0' as int <= c as int <= '9' as int
}

/// Whether every character of `s` is a decimal digit.
pub open spec fn all_digits(s: Seq<char>) -> bool {
    forall|i: int| 0 <= i < s.len() ==> is_digit(#[trigger] s[i])
}

/// The numeric value of a sequence of decimal digit characters.
pub open spec fn dec_value(s: Seq<char>) -> int
    decreases s.len(),
{
    if s.len() == 0 {
        0
    } else {
        dec_value(s.drop_last()) * 10 + (s.last() as int - '0' as int)
    }
}

/// The digit part of `s`: `s` with a single leading plus sign removed.
pub open spec fn digits_of(s: Seq<char>) -> Seq<char> {
    if s.len() > 0 && s[0] == '+' {
        s.skip(1)
    } else {
        s
    }
}

/// Whether decimal parsing accepts `s` as a usize: an optional leading plus
/// sign, then one or more digits, with a value that fits the type.
pub open spec fn parses_as_usize(s: Seq<char>) -> bool {
    &&& digits_of(s).len() > 0
    &&& all_digits(digits_of(s))
    &&& dec_value(digits_of(s)) <= usize::MAX as int
}

/// A sequence of digits has a non-negative value.
proof fn lemma_dec_value_nonneg(s: Seq<char>)
    requires
        all_digits(s),
    ensures
        dec_value(s) >= 0,
    decreases s.len(),
{
    if s.len() > 0 {
        assert forall|i: int| 0 <= i < s.drop_last().len() implies is_digit(
            #[trigger] s.drop_last()[i],
        ) by {
            assert(s.drop_last()[i] == s[i]);
        }
        lemma_dec_value_nonneg(s.drop_last());
        assert(is_digit(s.last()));
    }
}

/// Extending a digit string can only increase its value.
proof fn lemma_dec_value_prefix_le(t: Seq<char>, k: int)
    requires
        all_digits(t),
        0 <= k <= t.len(),
    ensures
        dec_value(t.subrange(0, k)) <= dec_value(t),
    decreases t.len() - k,
{
    if k == t.len() {
        assert(t.subrange(0, k) =~= t);
    } else {
        lemma_dec_value_prefix_le(t, k + 1);
        let p = t.subrange(0, k);
        let q = t.subrange(0, k + 1);
        assert(q.drop_last() =~= p);
        assert(q.last() == t[k]);
        assert forall|i: int| 0 <= i < p.len() implies is_digit(#[trigger] p[i]) by {
            assert(p[i] == t[i]);
        }
        lemma_dec_value_nonneg(p);
        assert(is_digit(t[k]));
        assert(dec_value(q) == dec_value(p) * 10 + (t[k] as int - '0' as int));
    }
}

/// Checks that `value` parses as a positive, non-zero integer, exactly as
/// decimal usize parsing accepts it: an optional leading plus sign, one or
/// more digits, a value that fits the type and is not zero.
pub fn pos_int_validate(value: String) -> (r: Result<(), String>)
    ensures
        r is Ok <==> parses_as_usize(value@) && dec_value(digits_of(value@)) > 0,
        r is Err ==> r->Err_0@ == "must be a positive, non-zero integer"@,
{
    let error_msg = "must be a positive, non-zero integer";
    let s = value.as_str();
    let n = s.unicode_len();
    let mut i: usize = 0;
    if n > 0 && s.get_char(0) == '+' {
        i = 1;
    }
    let ghost start = i as int;
    let ghost d = digits_of(value@);
    proof {
        assert(d =~= value@.skip(start));
    }
    if i >= n {
        assert(d.len() == 0);
        return Err(error_msg.to_owned());
    }
    let mut acc: usize = 0;
    while i < n
        invariant
            start <= i <= n,
            n == value@.len(),
            s@ == value@,
            error_msg@ == "must be a positive, non-zero integer"@,
            d == digits_of(value@),
            d =~= value@.skip(start),
            0 <= start <= 1,
            all_digits(d.subrange(0, i - start)),
            acc == dec_value(d.subrange(0, i - start)),
        decreases n - i,
    {
        let c = s.get_char(i);
        let cu = c as u32;
        let ghost p = d.subrange(0, i - start);
        let ghost q = d.subrange(0, i + 1 - start);
        proof {
            assert(d[i - start] == c);
        }
        if cu < 48 || cu > 57 {
            proof {
                assert(!is_digit(d[i - start]));
                assert(!all_digits(d));
            }
            return Err(error_msg.to_owned());
        }
        let digit = (cu - 48) as usize;
        proof {
            assert(q.drop_last() =~= p);
            assert(q.last() == d[i - start]);
            assert(dec_value(q) == dec_value(p) * 10 + (c as int - '0' as int));
            assert forall|j: int| 0 <= j < q.len() implies is_digit(#[trigger] q[j]) by {
                if j < p.len() {
                    assert(q[j] == p[j]);
                }
            }
        }
        let wide: u128 = (acc as u128) * 10 + (digit as u128);
        if wide > (usize::MAX as u128) {
            proof {
                assert(dec_value(q) > usize::MAX as int);
                if all_digits(d) {
                    lemma_dec_value_prefix_le(d, i + 1 - start);
                }
                assert(!parses_as_usize(value@));
            }
            return Err(error_msg.to_owned());
        }
        acc = wide as usize;
        i += 1;
    }
    proof {
        assert(d.subrange(0, n - start) =~= d);
        assert(acc == dec_value(d));
        assert(all_digits(d));
        assert(d.len() > 0);
        assert(parses_as_usize(value@));
    }
    if acc == 0 {
        Err(error_msg.to_owned())
    } else {
        Ok(())
    }
}

} // verus!
