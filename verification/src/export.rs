//! Record types and helpers of the data-export feature.  The
//! surrounding application fills the records from the store and
//! serializes them; the library defines their shape and the pure
//! pieces of the ICS rendering.

use vstd::prelude::*;
use vstd::string::StrSliceExecFns;

verus! {

/// `s` with every occurrence of `bad` removed.
pub open spec fn strip_char(s: Seq<char>, bad: char) -> Seq<char>
    decreases s.len(),
{
    if s.len() == 0 {
        Seq::empty()
    } else {
        strip_char(s.drop_last(), bad) + if s.last() == bad {
            Seq::empty()
        } else {
            seq![s.last()]
        }
    }
}

/// Relies on String::push: appends the given character at the end.
#[verifier::external_body]
fn push_char(s: &mut String, c: char)
    ensures
        final(s)@ == old(s)@.push(c),
{
    s.push(c);
}

/// Appends `s` to `out`, leaving out every occurrence of `bad`.
fn append_without(out: &mut String, s: &str, bad: char)
    ensures
        final(out)@ == old(out)@ + strip_char(s@, bad),
{
    let n = s.unicode_len();
    let mut i: usize = 0;
    proof {
        assert(s@.take(0) =~= Seq::<char>::empty());
        assert(out@ =~= old(out)@ + strip_char(s@.take(0), bad));
    }
    while i < n
        invariant
            n == s@.len(),
            i <= n,
            out@ == old(out)@ + strip_char(s@.take(i as int), bad),
        decreases n - i,
    {
        let c = s.get_char(i);
        let ghost out_prev = out@;
        if c != bad {
            push_char(out, c);
        }
        proof {
            assert(s@.take(i as int + 1).drop_last() =~= s@.take(i as int));
            assert(s@.take(i as int + 1).last() == c);
            if c != bad {
                assert(out@ =~= out_prev + seq![c]);
                assert(out@ =~= old(out)@ + strip_char(s@.take(i as int + 1), bad));
            } else {
                assert(out@ =~= old(out)@ + strip_char(s@.take(i as int + 1), bad));
            }
        }
        i = i + 1;
    }
    proof {
        assert(s@.take(n as int) =~= s@);
    }
}

/// A date `YYYY-MM-DD` and a time `HH:MM:SS` rendered as the ICS
/// timestamp the export writes: the date without its dashes, a `T`,
/// the time without its colons, and a trailing `00`.
pub fn format_ics_datetime(date: &str, time: &str) -> (r: String)
    ensures
        r@ == strip_char(date@, '-') + seq!['T'] + strip_char(time@, ':') + seq!['0', '0'],
{
    let mut out = String::new();
    append_without(&mut out, date, '-');
    push_char(&mut out, 'T');
    append_without(&mut out, time, ':');
    push_char(&mut out, '0');
    push_char(&mut out, '0');
    proof {
        assert(out@ =~= strip_char(date@, '-') + seq!['T'] + strip_char(time@, ':') + seq![
            '0',
            '0',
        ]);
    }
    out
}

/// The export file formats the application offers.
#[derive(Debug, Clone, PartialEq, Eq, Structural)]
pub enum ExportFormat {
    Json,
    Ics,
}

/// One exported session row.
#[derive(Debug, Clone)]
pub struct SessionExport {
    pub id: usize,
    pub date: String,
    pub category_id: u64,
    pub category_name: String,
    pub project: Option<String>,
    pub description: String,
    pub start_time: String,
    pub end_time: String,
    pub elapsed_seconds: usize,
}

/// One exported category row.
#[derive(Debug, Clone)]
pub struct CategoryExport {
    pub id: u64,
    pub name: String,
    pub description: String,
    pub color_index: usize,
    pub karma_effect: i8,
}

} // verus!
