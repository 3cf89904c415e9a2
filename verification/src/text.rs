//! Character-level helpers shared by the diff renderer and the pipelines:
//! splitting text into terminated lines, lexicographic ordering of paths,
//! decimal rendering of counters, and whitespace tests.
use vstd::prelude::*;
use vstd::string::StrSliceExecFns;
use vstd::string::StringExecFns;

verus! {

/// The characters of all strings in `ss`, in order.
pub open spec fn concat_strs(ss: Seq<String>) -> Seq<char>
    decreases ss.len(),
{
    if ss.len() == 0 {
        Seq::empty()
    } else {
        concat_strs(ss.drop_last()) + ss.last()@
    }
}

pub proof fn lemma_concat_strs_push(ss: Seq<String>, s: String)
    ensures
        concat_strs(ss.push(s)) =~= concat_strs(ss) + s@,
{
    assert(ss.push(s).drop_last() =~= ss);
}

/// The character sequences of a sequence of strings.
pub open spec fn views_of(ss: Seq<String>) -> Seq<Seq<char>> {
    ss.map_values(|s: String| s@)
}

/// The characters of all sequences in `ss`, in order.
pub open spec fn concat_seqs(ss: Seq<Seq<char>>) -> Seq<char>
    decreases ss.len(),
{
    if ss.len() == 0 {
        Seq::empty()
    } else {
        concat_seqs(ss.drop_last()) + ss.last()
    }
}

pub proof fn lemma_concat_strs_views(ss: Seq<String>)
    ensures
        concat_strs(ss) == concat_seqs(views_of(ss)),
    decreases ss.len(),
{
    if ss.len() == 0 {
        assert(views_of(ss).len() == 0);
    } else {
        lemma_concat_strs_views(ss.drop_last());
        assert(views_of(ss).drop_last() =~= views_of(ss.drop_last()));
        assert(views_of(ss).last() == ss.last()@);
    }
}

/// A string of line shape: non-empty, with a newline nowhere but possibly last.
pub open spec fn is_line_chunk(s: Seq<char>) -> bool {
    s.len() > 0 && (forall|k: int| 0 <= k < s.len() - 1 ==> s[k] != '\n')
}

/// Splits `text` into lines. Every line keeps its terminating newline; only
/// the last line may lack one. Concatenating the lines gives `text` back.
pub fn split_lines(text: &str) -> (lines: Vec<String>)
    ensures
        concat_strs(lines@) =~= text@,
        forall|p: int| 0 <= p < lines@.len() ==> is_line_chunk(#[trigger] lines@[p]@),
        forall|p: int| 0 <= p < lines@.len() - 1 ==> #[trigger] lines@[p]@.last() == '\n',
{
    let n = text.unicode_len();
    let mut lines: Vec<String> = Vec::new();
    let mut start: usize = 0;
    let mut i: usize = 0;
    while i < n
        invariant
            start <= i <= n,
            n == text@.len(),
            concat_strs(lines@) =~= text@.subrange(0, start as int),
            forall|k: int| start <= k < i ==> text@[k] != '\n',
            forall|p: int| 0 <= p < lines@.len() ==> is_line_chunk(#[trigger] lines@[p]@),
            forall|p: int| 0 <= p < lines@.len() ==> #[trigger] lines@[p]@.last() == '\n',
        decreases n - i,
    {
        let c = text.get_char(i);
        if c == '\n' {
            let line = text.substring_char(start, i + 1).to_owned();
            proof {
                lemma_concat_strs_push(lines@, line);
                assert(text@.subrange(0, start as int) + text@.subrange(
                    start as int,
                    i + 1,
                ) =~= text@.subrange(0, i + 1));
            }
            lines.push(line);
            start = i + 1;
        }
        i += 1;
    }
    if start < n {
        let line = text.substring_char(start, n).to_owned();
        proof {
            lemma_concat_strs_push(lines@, line);
            assert(text@.subrange(0, start as int) + text@.subrange(start as int, n as int)
                =~= text@.subrange(0, n as int));
        }
        lines.push(line);
    }
    proof {
        assert(text@.subrange(0, n as int) =~= text@);
    }
    lines
}

/// Strict order on characters, by scalar value.
pub open spec fn char_lt(a: char, b: char) -> bool {
    (a as u32) < (b as u32)
}

/// Strict lexicographic order on character sequences; a proper prefix comes
/// first.
pub open spec fn seq_char_lt(a: Seq<char>, b: Seq<char>) -> bool
    decreases a.len(),
{
    if b.len() == 0 {
        false
    } else if a.len() == 0 {
        true
    } else if char_lt(a[0], b[0]) {
        true
    } else if a[0] == b[0] {
        seq_char_lt(a.drop_first(), b.drop_first())
    } else {
        false
    }
}

pub proof fn lemma_seq_char_lt_trichotomy(a: Seq<char>, b: Seq<char>)
    ensures
        seq_char_lt(a, b) || seq_char_lt(b, a) || a =~= b,
    decreases a.len(),
{
    if a.len() == 0 || b.len() == 0 {
    } else if a[0] == b[0] {
        lemma_seq_char_lt_trichotomy(a.drop_first(), b.drop_first());
        if !seq_char_lt(a, b) && !seq_char_lt(b, a) {
            assert(a.drop_first() =~= b.drop_first());
            assert forall|k: int| 0 <= k < a.len() implies a[k] == b[k] by {
                if k > 0 {
                    assert(a[k] == a.drop_first()[k - 1]);
                }
            }
        }
    } else {
        if a[0] as u32 == b[0] as u32 {
            vstd::utf8::char_u32_cast(a[0], a[0] as u32);
            vstd::utf8::char_u32_cast(b[0], b[0] as u32);
        }
        assert(char_lt(a[0], b[0]) || char_lt(b[0], a[0]));
    }
}

pub proof fn lemma_seq_char_lt_irrefl(a: Seq<char>)
    ensures
        !seq_char_lt(a, a),
    decreases a.len(),
{
    if a.len() > 0 {
        lemma_seq_char_lt_irrefl(a.drop_first());
    }
}

pub proof fn lemma_seq_char_lt_trans(a: Seq<char>, b: Seq<char>, c: Seq<char>)
    requires
        seq_char_lt(a, b),
        seq_char_lt(b, c),
    ensures
        seq_char_lt(a, c),
    decreases a.len(),
{
    if a.len() > 0 && b.len() > 0 && c.len() > 0 {
        if a[0] == b[0] && b[0] == c[0] {
            lemma_seq_char_lt_trans(a.drop_first(), b.drop_first(), c.drop_first());
        }
    }
}

pub proof fn lemma_seq_char_lt_asym(a: Seq<char>, b: Seq<char>)
    requires
        seq_char_lt(a, b),
    ensures
        !seq_char_lt(b, a),
{
    if seq_char_lt(b, a) {
        lemma_seq_char_lt_trans(a, b, a);
        lemma_seq_char_lt_irrefl(a);
    }
}

/// Outcome of comparing two paths.
pub enum PathOrder {
    Less,
    Equal,
    Greater,
}

proof fn lemma_seq_char_lt_skip(a: Seq<char>, b: Seq<char>, i: int)
    requires
        0 <= i <= a.len(),
        i <= b.len(),
        forall|k: int| 0 <= k < i ==> a[k] == b[k],
    ensures
        seq_char_lt(a, b) == seq_char_lt(a.skip(i), b.skip(i)),
    decreases i,
{
    if i == 0 {
        assert(a.skip(0) =~= a);
        assert(b.skip(0) =~= b);
    } else {
        assert(a.len() > 0 && b.len() > 0 && a[0] == b[0]);
        assert(a.drop_first() =~= a.skip(1));
        assert(b.drop_first() =~= b.skip(1));
        assert(a.skip(1).skip(i - 1) =~= a.skip(i));
        assert(b.skip(1).skip(i - 1) =~= b.skip(i));
        lemma_seq_char_lt_skip(a.skip(1), b.skip(1), i - 1);
    }
}

/// Three-way lexicographic comparison of two strings, by characters.
pub fn compare_str(a: &str, b: &str) -> (r: PathOrder)
    ensures
        r is Less <==> seq_char_lt(a@, b@),
        r is Greater <==> seq_char_lt(b@, a@),
        r is Equal <==> a@ == b@,
{
    let na = a.unicode_len();
    let nb = b.unicode_len();
    let min: usize = if na < nb {
        na
    } else {
        nb
    };
    let mut i: usize = 0;
    while i < min
        invariant
            0 <= i <= min,
            na == a@.len(),
            nb == b@.len(),
            min == if na < nb {
                na
            } else {
                nb
            },
            forall|k: int| 0 <= k < i ==> a@[k] == b@[k],
        decreases min - i,
    {
        let ca = a.get_char(i);
        let cb = b.get_char(i);
        if ca != cb {
            proof {
                lemma_seq_char_lt_skip(a@, b@, i as int);
                lemma_seq_char_lt_skip(b@, a@, i as int);
                assert(a@.skip(i as int)[0] == a@[i as int]);
                assert(b@.skip(i as int)[0] == b@[i as int]);
            }
            if (ca as u32) < (cb as u32) {
                proof {
                    lemma_seq_char_lt_asym(a@, b@);
                }
                return PathOrder::Less;
            } else {
                proof {
                    lemma_seq_char_lt_asym(b@, a@);
                }
                return PathOrder::Greater;
            }
        }
        i += 1;
    }
    proof {
        lemma_seq_char_lt_skip(a@, b@, min as int);
        lemma_seq_char_lt_skip(b@, a@, min as int);
    }
    if na < nb {
        proof {
            assert(a@.skip(min as int).len() == 0);
            assert(b@.skip(min as int).len() > 0);
            lemma_seq_char_lt_asym(a@, b@);
        }
        PathOrder::Less
    } else if nb < na {
        proof {
            assert(b@.skip(min as int).len() == 0);
            assert(a@.skip(min as int).len() > 0);
            lemma_seq_char_lt_asym(b@, a@);
        }
        PathOrder::Greater
    } else {
        proof {
            assert(a@ =~= b@);
            lemma_seq_char_lt_irrefl(a@);
        }
        PathOrder::Equal
    }
}

/// The character for one decimal digit.
pub open spec fn dec_digit_char(d: nat) -> char {
    if d == 0 {
        '0'
    } else if d == 1 {
        '1'
    } else if d == 2 {
        '2'
    } else if d == 3 {
        '3'
    } else if d == 4 {
        '4'
    } else if d == 5 {
        '5'
    } else if d == 6 {
        '6'
    } else if d == 7 {
        '7'
    } else if d == 8 {
        '8'
    } else {
        '9'
    }
}

/// The usual decimal rendering of `n`, without a sign and without leading
/// zeros (except for zero itself).
pub open spec fn dec_str(n: nat) -> Seq<char>
    decreases n,
{
    if n < 10 {
        seq![dec_digit_char(n)]
    } else {
        dec_str(n / 10).push(dec_digit_char(n % 10))
    }
}

fn digit_literal(d: usize) -> (s: &'static str)
    requires
        d < 10,
    ensures
        s@ =~= seq![dec_digit_char(d as nat)],
{
    proof {
        reveal_strlit("0");
        reveal_strlit("1");
        reveal_strlit("2");
        reveal_strlit("3");
        reveal_strlit("4");
        reveal_strlit("5");
        reveal_strlit("6");
        reveal_strlit("7");
        reveal_strlit("8");
        reveal_strlit("9");
    }
    match d {
        0 => "0",
        1 => "1",
        2 => "2",
        3 => "3",
        4 => "4",
        5 => "5",
        6 => "6",
        7 => "7",
        8 => "8",
        _ => "9",
    }
}

/// Renders `n` in decimal.
pub fn usize_dec_str(n: usize) -> (s: String)
    ensures
        s@ =~= dec_str(n as nat),
    decreases n,
{
    if n < 10 {
        digit_literal(n).to_owned()
    } else {
        let mut s = usize_dec_str(n / 10);
        s.append(digit_literal(n % 10));
        proof {
            assert(dec_str((n / 10) as nat).push(dec_digit_char((n % 10) as nat)) =~= dec_str(
                (n / 10) as nat,
            ) + seq![dec_digit_char((n % 10) as nat)]);
        }
        s
    }
}

/// An ASCII whitespace character, as trimming understands it.
pub open spec fn is_space_char(c: char) -> bool {
    c == ' ' || c == '\t' || c == '\n' || c == '\r'
}

/// A string of whitespace only (possibly empty).
pub open spec fn is_blank(s: Seq<char>) -> bool {
    forall|k: int| 0 <= k < s.len() ==> is_space_char(#[trigger] s[k])
}

fn is_space(c: char) -> (r: bool)
    ensures
        r == is_space_char(c),
{
    c == ' ' || c == '\t' || c == '\n' || c == '\r'
}

/// True when `s` holds nothing but whitespace.
pub fn str_is_blank(s: &str) -> (r: bool)
    ensures
        r == is_blank(s@),
{
    let n = s.unicode_len();
    let mut i: usize = 0;
    while i < n
        invariant
            0 <= i <= n,
            n == s@.len(),
            forall|k: int| 0 <= k < i ==> is_space_char(#[trigger] s@[k]),
        decreases n - i,
    {
        if !is_space(s.get_char(i)) {
            return false;
        }
        i += 1;
    }
    true
}

/// `s` without leading whitespace.
pub open spec fn trim_front_spec(s: Seq<char>) -> Seq<char>
    decreases s.len(),
{
    if s.len() > 0 && is_space_char(s[0]) {
        trim_front_spec(s.drop_first())
    } else {
        s
    }
}

/// `s` without trailing whitespace.
pub open spec fn trim_back_spec(s: Seq<char>) -> Seq<char>
    decreases s.len(),
{
    if s.len() > 0 && is_space_char(s.last()) {
        trim_back_spec(s.drop_last())
    } else {
        s
    }
}

/// `s` without leading and trailing whitespace.
pub open spec fn trim_spec(s: Seq<char>) -> Seq<char> {
    trim_back_spec(trim_front_spec(s))
}

proof fn lemma_trim_front_skip(s: Seq<char>, lo: int)
    requires
        0 <= lo <= s.len(),
        forall|k: int| 0 <= k < lo ==> is_space_char(#[trigger] s[k]),
        lo < s.len() ==> !is_space_char(s[lo]),
    ensures
        trim_front_spec(s) =~= s.skip(lo),
    decreases lo,
{
    if lo == 0 {
        assert(s.skip(0) =~= s);
    } else {
        assert(s.drop_first() =~= s.skip(1));
        assert(s.skip(1).skip(lo - 1) =~= s.skip(lo));
        lemma_trim_front_skip(s.skip(1), lo - 1);
    }
}

proof fn lemma_trim_back_take(s: Seq<char>, hi: int)
    requires
        0 <= hi <= s.len(),
        forall|k: int| hi <= k < s.len() ==> is_space_char(#[trigger] s[k]),
        hi > 0 ==> !is_space_char(s[hi - 1]),
    ensures
        trim_back_spec(s) =~= s.take(hi),
    decreases s.len() - hi,
{
    if hi == s.len() {
        assert(s.take(hi) =~= s);
    } else {
        assert(s.drop_last() =~= s.take(s.len() - 1));
        lemma_trim_back_take(s.take(s.len() - 1), hi);
        assert(s.take(s.len() - 1).take(hi) =~= s.take(hi));
    }
}

/// `s` with surrounding whitespace removed, as a fresh string.
pub fn trim_str(s: &str) -> (r: String)
    ensures
        r@ =~= trim_spec(s@),
{
    let n = s.unicode_len();
    let mut lo: usize = 0;
    while lo < n && is_space(s.get_char(lo))
        invariant
            0 <= lo <= n,
            n == s@.len(),
            forall|k: int| 0 <= k < lo ==> is_space_char(#[trigger] s@[k]),
        decreases n - lo,
    {
        lo += 1;
    }
    let mut hi: usize = n;
    while hi > lo && is_space(s.get_char(hi - 1))
        invariant
            lo <= hi <= n,
            n == s@.len(),
            forall|k: int| 0 <= k < lo ==> is_space_char(#[trigger] s@[k]),
            lo < n ==> !is_space_char(s@[lo as int]),
            forall|k: int| hi <= k < n ==> is_space_char(#[trigger] s@[k]),
        decreases hi,
    {
        hi -= 1;
    }
    let r = s.substring_char(lo, hi).to_owned();
    proof {
        lemma_trim_front_skip(s@, lo as int);
        let t = s@.skip(lo as int);
        if hi > lo {
            assert(!is_space_char(t[hi - lo - 1]));
        }
        assert forall|k: int| hi - lo <= k < t.len() implies is_space_char(#[trigger] t[k]) by {
            assert(t[k] == s@[k + lo]);
        }
        lemma_trim_back_take(t, hi - lo);
        assert(s@.subrange(lo as int, hi as int) =~= t.take(hi - lo));
    }
    r
}

} // verus!
