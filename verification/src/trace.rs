//! The decisions and the text of the phase trace.
//!
//! Nothing is printed unless `NLTT_TRACE` is set to something other than `0`, `no`, `off`
//! or `false`; whether a value asks for the logs, and what a phase line reads, are decided
//! here. Reading the variable, timing the phases and writing to standard error are left to
//! the program around the library.
use vstd::prelude::*;
use vstd::string::*;

verus! {

/// Whether `c` is white space in the sense of Unicode's `White_Space` property, which is
/// what `str::trim` strips.
pub open spec fn is_space_spec(c: char) -> bool {
    let u = c as u32;
    ||| 0x9 <= u <= 0xD
    ||| u == 0x20
    ||| u == 0x85
    ||| u == 0xA0
    ||| u == 0x1680
    ||| 0x2000 <= u <= 0x200A
    ||| u == 0x2028
    ||| u == 0x2029
    ||| u == 0x202F
    ||| u == 0x205F
    ||| u == 0x3000
}

/// `s` without its leading white space.
pub open spec fn trim_start_spec(s: Seq<char>) -> Seq<char>
    decreases s.len(),
{
    if s.len() > 0 && is_space_spec(s[0]) {
        trim_start_spec(s.drop_first())
    } else {
        s
    }
}

/// `s` without its trailing white space.
pub open spec fn trim_end_spec(s: Seq<char>) -> Seq<char>
    decreases s.len(),
{
    if s.len() > 0 && is_space_spec(s.last()) {
        trim_end_spec(s.drop_last())
    } else {
        s
    }
}

/// `s` without its leading and trailing white space.
pub open spec fn trim_spec(s: Seq<char>) -> Seq<char> {
    trim_end_spec(trim_start_spec(s))
}

/// Whether a value of `NLTT_TRACE` turns the logs on: anything but, once trimmed, the
/// empty string, `0`, `no`, `off` or `false`.
pub open spec fn asked_for_spec(v: Seq<char>) -> bool {
    let t = trim_spec(v);
    !(t == Seq::<char>::empty() || t == seq!['0'] || t == seq!['n', 'o'] || t == seq!['o', 'f', 'f']
        || t == seq!['f', 'a', 'l', 's', 'e'])
}

/// Whether `c` is white space; `char::is_whitespace`.
pub fn is_space(c: char) -> (r: bool)
    ensures
        r == is_space_spec(c),
{
    let u = c as u32;
    (0x9 <= u && u <= 0xD) || u == 0x20 || u == 0x85 || u == 0xA0 || u == 0x1680 || (0x2000 <= u
        && u <= 0x200A) || u == 0x2028 || u == 0x2029 || u == 0x202F || u == 0x205F || u == 0x3000
}

/// Dropping the leading white space of a run that starts with `i` spaces is dropping
/// those `i` and whatever white space follows.
proof fn lemma_trim_start_skip(s: Seq<char>, i: int)
    requires
        0 <= i <= s.len(),
        forall|k: int| 0 <= k < i ==> is_space_spec(#[trigger] s[k]),
    ensures
        trim_start_spec(s) == trim_start_spec(s.subrange(i, s.len() as int)),
    decreases i,
{
    if i > 0 {
        assert(s.drop_first().subrange(i - 1, s.drop_first().len() as int) =~= s.subrange(
            i,
            s.len() as int,
        ));
        lemma_trim_start_skip(s.drop_first(), i - 1);
    } else {
        assert(s.subrange(0, s.len() as int) =~= s);
    }
}

/// Dropping the trailing white space of a run that ends with spaces from `j` on is
/// dropping those and whatever white space precedes them.
proof fn lemma_trim_end_skip(s: Seq<char>, j: int)
    requires
        0 <= j <= s.len(),
        forall|k: int| j <= k < s.len() ==> is_space_spec(#[trigger] s[k]),
    ensures
        trim_end_spec(s) == trim_end_spec(s.subrange(0, j)),
    decreases s.len() - j,
{
    if j < s.len() {
        assert(s.drop_last().subrange(0, j) =~= s.subrange(0, j));
        lemma_trim_end_skip(s.drop_last(), j);
    } else {
        assert(s.subrange(0, j) =~= s);
    }
}

/// Whether a value of `NLTT_TRACE` turns the logs on.
pub fn asked_for(v: &str) -> (r: bool)
    ensures
        r == asked_for_spec(v@),
{
    let n = v.unicode_len();
    let mut i: usize = 0;
    while i < n && is_space(v.get_char(i))
        invariant
            i <= n,
            n == v@.len(),
            forall|k: int| 0 <= k < i ==> is_space_spec(#[trigger] v@[k]),
        decreases n - i,
    {
        i = i + 1;
    }
    let mut j: usize = n;
    while j > i && is_space(v.get_char(j - 1))
        invariant
            i <= j <= n,
            n == v@.len(),
            forall|k: int| j <= k < n ==> is_space_spec(#[trigger] v@[k]),
        decreases j,
    {
        j = j - 1;
    }
    let ghost t = v@.subrange(i as int, j as int);
    proof {
        lemma_trim_start_skip(v@, i as int);
        let rest = v@.subrange(i as int, n as int);
        if i < n {
            assert(rest[0] == v@[i as int]);
        }
        assert(trim_start_spec(rest) == rest);
        lemma_trim_end_skip(rest, j - i);
        assert(rest.subrange(0, j - i) =~= t);
        if j > i {
            assert(t.last() == v@[j - 1]);
        }
        assert(trim_end_spec(t) == t);
        assert(trim_spec(v@) == t);
    }
    let len = j - i;
    if len == 0 {
        proof {
            assert(t =~= Seq::<char>::empty());
        }
        return false;
    }
    let c0 = v.get_char(i);
    if len == 1 {
        proof {
            assert(t.len() == 1 && t[0] == c0);
            if c0 == '0' {
                assert(t =~= seq!['0']);
            }
        }
        return c0 != '0';
    }
    let c1 = v.get_char(i + 1);
    if len == 2 {
        proof {
            if c0 == 'n' && c1 == 'o' {
                assert(t =~= seq!['n', 'o']);
            }
        }
        return !(c0 == 'n' && c1 == 'o');
    }
    let c2 = v.get_char(i + 2);
    if len == 3 {
        proof {
            if c0 == 'o' && c1 == 'f' && c2 == 'f' {
                assert(t =~= seq!['o', 'f', 'f']);
            }
        }
        return !(c0 == 'o' && c1 == 'f' && c2 == 'f');
    }
    if len == 5 {
        let c3 = v.get_char(i + 3);
        let c4 = v.get_char(i + 4);
        proof {
            if c0 == 'f' && c1 == 'a' && c2 == 'l' && c3 == 's' && c4 == 'e' {
                assert(t =~= seq!['f', 'a', 'l', 's', 'e']);
            }
        }
        return !(c0 == 'f' && c1 == 'a' && c2 == 'l' && c3 == 's' && c4 == 'e');
    }
    true
}

/// The start of every trace line.
pub open spec fn prefix_spec() -> Seq<char> {
    seq!['[', 'n', 'l', 't', 't', ']', ' ', ' ', ' ']
}

/// `n` spaces.
pub open spec fn spaces(n: int) -> Seq<char> {
    Seq::new(if n > 0 { n as nat } else { 0 }, |k: int| ' ')
}

/// How std writes a duration of `secs` seconds and `nanos` nanoseconds right-aligned in
/// twelve columns with three decimals, `{:>12.3?}`: `     1.234ms`.
pub uninterp spec fn duration_column_text(secs: u64, nanos: u32) -> Seq<char>;

/// A duration right-aligned in twelve columns with three decimals, as std's `Debug` for
/// `Duration` writes it.
///
/// Calls `format!` with `{:>12.3?}` on `Duration::new(secs, nanos)`; the contract claims
/// only that the text is a function of the duration, named [`duration_column_text`].
#[verifier::external_body]
fn duration_column(secs: u64, nanos: u32) -> (r: String)
    requires
        nanos < 1_000_000_000,
    ensures
        r@ == duration_column_text(secs, nanos),
{
    format!("{:>12.3?}", std::time::Duration::new(secs, nanos))
}

/// The text of a phase line: the name padded to seven columns, the duration of the phase
/// in twelve, and the detail, if any, after two spaces.
pub open spec fn phase_line_spec(name: Seq<char>, secs: u64, nanos: u32, detail: Seq<char>) -> Seq<char> {
    prefix_spec() + name + spaces(7 - name.len()) + seq![' '] + duration_column_text(secs, nanos) + (
    if detail.len() == 0 {
        Seq::<char>::empty()
    } else {
        seq![' ', ' ']
    }) + detail
}

/// One indented line for a phase that took `secs` seconds and `nanos` nanoseconds.
pub fn phase_line(name: &str, secs: u64, nanos: u32, detail: &str) -> (r: String)
    requires
        nanos < 1_000_000_000,
    ensures
        r@ == phase_line_spec(name@, secs, nanos, detail@),
{
    let mut out = String::from_str("[nltt]   ");
    proof {
        reveal_strlit("[nltt]   ");
        assert(out@ =~= prefix_spec());
    }
    out.append(name);
    let len = name.unicode_len();
    let mut k: usize = len;
    let ghost base = out@;
    while k < 7
        invariant
            len <= k,
            k <= 7 || k == len,
            out@ == base + spaces(k - len),
        decreases 7 - k,
    {
        out.append(" ");
        proof {
            reveal_strlit(" ");
            assert(base + spaces(k - len) + " "@ =~= base + spaces(k + 1 - len));
        }
        k = k + 1;
    }
    proof {
        assert(spaces(k - len) =~= spaces(7 - name@.len()));
    }
    out.append(" ");
    let d = duration_column(secs, nanos);
    out.append(d.as_str());
    if detail.unicode_len() != 0 {
        out.append("  ");
    }
    out.append(detail);
    proof {
        reveal_strlit(" ");
        reveal_strlit("  ");
        assert(out@ =~= phase_line_spec(name@, secs, nanos, detail@));
    }
    out
}

} // verus!
