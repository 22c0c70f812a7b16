//! Byte-string utilities the lexer and the engine are built on.
//!
//! Script text is handled as UTF-8 bytes. Every function here has an exact
//! specification over `Seq<u8>`.

use vstd::prelude::*;

verus! {

pub const NL: u8 = 10;

pub const CR: u8 = 13;

pub const QUOTE: u8 = 34;

pub const SPACE: u8 = 32;

pub const SLASH: u8 = 47;

pub const PLUS: u8 = 43;

pub const DOT: u8 = 46;

/// The sequence of views of a vector of byte vectors.
pub open spec fn views_of(v: Seq<Vec<u8>>) -> Seq<Seq<u8>> {
    v.map_values(|l: Vec<u8>| l@)
}

/// Views distribute over concatenation of byte-vector sequences.
pub proof fn lemma_views_concat(a: Seq<Vec<u8>>, b: Seq<Vec<u8>>)
    ensures
        views_of(a + b) =~= views_of(a) + views_of(b),
{
    assert forall|k: int| 0 <= k < (a + b).len() implies views_of(a + b)[k] == (views_of(a)
        + views_of(b))[k] by {
        if k < a.len() {
            assert((a + b)[k] == a[k]);
        } else {
            assert((a + b)[k] == b[k - a.len()]);
        }
    }
}

/// Index of the first occurrence of `b` in `s`, or `s.len()` when absent.
pub open spec fn find_byte(s: Seq<u8>, b: u8) -> nat
    decreases s.len(),
{
    if s.len() == 0 {
        0
    } else if s[0] == b {
        0
    } else {
        1 + find_byte(s.skip(1), b)
    }
}

pub proof fn lemma_find_byte(s: Seq<u8>, b: u8)
    ensures
        0 <= find_byte(s, b) <= s.len(),
        forall|k: int| 0 <= k < find_byte(s, b) ==> s[k] != b,
        find_byte(s, b) < s.len() ==> s[find_byte(s, b) as int] == b,
    decreases s.len(),
{
    if s.len() > 0 && s[0] != b {
        lemma_find_byte(s.skip(1), b);
        assert forall|k: int| 0 <= k < find_byte(s, b) implies s[k] != b by {
            if k > 0 {
                assert(s.skip(1)[k - 1] == s[k]);
            }
        }
        if find_byte(s, b) < s.len() {
            assert(s.skip(1)[find_byte(s, b) - 1] == s[find_byte(s, b) as int]);
        }
    }
}

/// Scans `s` from `start` for the byte `b`; returns its index, or `s.len()`.
pub fn scan_byte(s: &[u8], start: usize, b: u8) -> (r: usize)
    requires
        start <= s@.len(),
    ensures
        r == start + find_byte(s@.skip(start as int), b),
        start <= r <= s@.len(),
{
    let ghost whole = s@.skip(start as int);
    let mut i: usize = start;
    while i < s.len()
        invariant
            start <= i <= s@.len(),
            find_byte(whole, b) == (i - start) + find_byte(s@.skip(i as int), b),
            whole == s@.skip(start as int),
        decreases s@.len() - i,
    {
        if s[i] == b {
            proof {
                assert(s@.skip(i as int)[0] == s@[i as int]);
            }
            return i;
        }
        proof {
            assert(s@.skip(i as int)[0] == s@[i as int]);
            assert(s@.skip(i as int).skip(1) =~= s@.skip(i + 1));
        }
        i = i + 1;
    }
    proof {
        assert(s@.skip(i as int).len() == 0);
    }
    i
}

/// Copies `s[from..to]` into a fresh vector.
pub fn copy_range(s: &[u8], from: usize, to: usize) -> (r: Vec<u8>)
    requires
        from <= to <= s@.len(),
    ensures
        r@ == s@.subrange(from as int, to as int),
{
    let mut r: Vec<u8> = Vec::new();
    let mut i: usize = from;
    while i < to
        invariant
            from <= i <= to <= s@.len(),
            r@ == s@.subrange(from as int, i as int),
        decreases to - i,
    {
        r.push(s[i]);
        proof {
            assert(r@ =~= s@.subrange(from as int, i + 1));
        }
        i = i + 1;
    }
    r
}

/// Appends all of `src` to `dst`.
pub fn append_bytes(dst: &mut Vec<u8>, src: &[u8])
    ensures
        final(dst)@ == old(dst)@ + src@,
{
    let mut i: usize = 0;
    while i < src.len()
        invariant
            i <= src@.len(),
            dst@ == old(dst)@ + src@.take(i as int),
        decreases src@.len() - i,
    {
        dst.push(src[i]);
        proof {
            assert(old(dst)@ + src@.take(i + 1) =~= (old(dst)@ + src@.take(i as int)).push(
                src@[i as int],
            ));
        }
        i = i + 1;
    }
    proof {
        assert(src@.take(src@.len() as int) =~= src@);
    }
}

/// Whether `p` is a prefix of `s`.
pub open spec fn has_prefix(s: Seq<u8>, p: Seq<u8>) -> bool {
    p.len() <= s.len() && s.subrange(0, p.len() as int) == p
}

pub fn starts_with_bytes(s: &[u8], p: &[u8]) -> (r: bool)
    ensures
        r == has_prefix(s@, p@),
{
    if p.len() > s.len() {
        return false;
    }
    let mut i: usize = 0;
    while i < p.len()
        invariant
            i <= p@.len() <= s@.len(),
            forall|k: int| 0 <= k < i ==> s@[k] == p@[k],
        decreases p@.len() - i,
    {
        if s[i] != p[i] {
            proof {
                assert(s@.subrange(0, p@.len() as int)[i as int] == s@[i as int]);
            }
            return false;
        }
        i = i + 1;
    }
    proof {
        assert(s@.subrange(0, p@.len() as int) =~= p@);
    }
    true
}

pub fn bytes_eq(a: &[u8], b: &[u8]) -> (r: bool)
    ensures
        r == (a@ == b@),
{
    if a.len() != b.len() {
        return false;
    }
    let mut i: usize = 0;
    while i < a.len()
        invariant
            i <= a@.len() == b@.len(),
            forall|k: int| 0 <= k < i ==> a@[k] == b@[k],
        decreases a@.len() - i,
    {
        if a[i] != b[i] {
            return false;
        }
        i = i + 1;
    }
    proof {
        assert(a@ =~= b@);
    }
    true
}

/// ASCII whitespace, the set the engine trims around directive tokens.
pub open spec fn is_space(b: u8) -> bool {
    b == SPACE || 9 <= b <= 13
}

pub fn is_space_byte(b: u8) -> (r: bool)
    ensures
        r == is_space(b),
{
    b == SPACE || (9 <= b && b <= 13)
}

pub open spec fn trim_front(s: Seq<u8>) -> Seq<u8>
    decreases s.len(),
{
    if s.len() > 0 && is_space(s[0]) {
        trim_front(s.skip(1))
    } else {
        s
    }
}

pub open spec fn trim_back(s: Seq<u8>) -> Seq<u8>
    decreases s.len(),
{
    if s.len() > 0 && is_space(s.last()) {
        trim_back(s.drop_last())
    } else {
        s
    }
}

/// `s` with ASCII whitespace removed from both ends.
pub open spec fn trimmed(s: Seq<u8>) -> Seq<u8> {
    trim_back(trim_front(s))
}

proof fn lemma_trim_front_skip(s: Seq<u8>, i: int)
    requires
        0 <= i <= s.len(),
        forall|k: int| 0 <= k < i ==> is_space(s[k]),
    ensures
        trim_front(s) == trim_front(s.skip(i)),
    decreases i,
{
    if i > 0 {
        assert(trim_front(s) == trim_front(s.skip(1)));
        lemma_trim_front_skip(s.skip(1), i - 1);
        assert(s.skip(1).skip(i - 1) =~= s.skip(i));
    } else {
        assert(s.skip(0) =~= s);
    }
}

proof fn lemma_trim_back_take(s: Seq<u8>, j: int)
    requires
        0 <= j <= s.len(),
        forall|k: int| j <= k < s.len() ==> is_space(s[k]),
    ensures
        trim_back(s) == trim_back(s.take(j)),
    decreases s.len() - j,
{
    if j < s.len() {
        assert(is_space(s.last()));
        assert(trim_back(s) == trim_back(s.drop_last()));
        lemma_trim_back_take(s.drop_last(), j);
        assert(s.drop_last().take(j) =~= s.take(j));
    } else {
        assert(s.take(j) =~= s);
    }
}

/// `trimmed(s)` is the subrange between the first and last non-space bytes.
pub proof fn lemma_trimmed_subrange(s: Seq<u8>, i: int, j: int)
    requires
        0 <= i <= j <= s.len(),
        forall|k: int| 0 <= k < i ==> is_space(s[k]),
        forall|k: int| j <= k < s.len() ==> is_space(s[k]),
        i < j ==> !is_space(s[i]) && !is_space(s[j - 1]),
    ensures
        trimmed(s) == s.subrange(i, j),
{
    lemma_trim_front_skip(s, i);
    let t = s.skip(i);
    if i < j {
        assert(!is_space(t[0]));
        assert(trim_front(t) == t);
        lemma_trim_back_take(t, j - i);
        let u = t.take(j - i);
        assert(u =~= s.subrange(i, j));
        assert(u.len() > 0 && !is_space(u.last()));
        assert(trim_back(u) == u);
    } else {
        // everything is space: the trimmed text is empty
        assert(forall|k: int| 0 <= k < t.len() ==> is_space(t[k]));
        lemma_trim_front_all_space(t);
        assert(trim_front(t) =~= Seq::<u8>::empty());
        assert(trim_back(Seq::<u8>::empty()) =~= Seq::<u8>::empty());
        assert(s.subrange(i, j) =~= Seq::<u8>::empty());
    }
}

proof fn lemma_trim_front_all_space(s: Seq<u8>)
    requires
        forall|k: int| 0 <= k < s.len() ==> is_space(s[k]),
    ensures
        trim_front(s) == Seq::<u8>::empty(),
    decreases s.len(),
{
    if s.len() > 0 {
        lemma_trim_front_all_space(s.skip(1));
    } else {
        assert(s =~= Seq::<u8>::empty());
    }
}

/// `s` with ASCII whitespace removed from both ends, as a fresh vector.
pub fn trim_bytes(s: &[u8]) -> (r: Vec<u8>)
    ensures
        r@ == trimmed(s@),
{
    let mut i: usize = 0;
    while i < s.len() && is_space_byte(s[i])
        invariant
            i <= s@.len(),
            forall|k: int| 0 <= k < i ==> is_space(s@[k]),
        decreases s@.len() - i,
    {
        i = i + 1;
    }
    let mut j: usize = s.len();
    while j > i && is_space_byte(s[j - 1])
        invariant
            i <= j <= s@.len(),
            forall|k: int| j <= k < s@.len() ==> is_space(s@[k]),
        decreases j,
    {
        j = j - 1;
    }
    proof {
        lemma_trimmed_subrange(s@, i as int, j as int);
    }
    copy_range(s, i, j)
}

/// A line segment with one carriage return dropped from its end, the way a
/// `\r\n` terminator is handled when text is split into lines.
pub open spec fn strip_cr(l: Seq<u8>) -> Seq<u8> {
    if l.len() > 0 && l.last() == CR {
        l.drop_last()
    } else {
        l
    }
}

/// Text split into lines: segments between newline bytes, a `\r` before each
/// newline dropped, and no empty final segment when the text ends in a
/// newline. A final segment without a newline keeps a lone trailing `\r`.
pub open spec fn split_lines_spec(s: Seq<u8>) -> Seq<Seq<u8>>
    decreases s.len(),
{
    if s.len() == 0 {
        seq![]
    } else {
        let i = find_byte(s, NL);
        if i >= s.len() {
            seq![s]
        } else {
            seq![strip_cr(s.take(i as int))] + split_lines_spec(s.skip(i + 1 as int))
        }
    }
}

pub fn split_lines(s: &[u8]) -> (r: Vec<Vec<u8>>)
    ensures
        views_of(r@) == split_lines_spec(s@),
{
    let mut r: Vec<Vec<u8>> = Vec::new();
    let mut pos: usize = 0;
    proof {
        assert(s@.skip(0) =~= s@);
        assert(views_of(r@) + split_lines_spec(s@) =~= split_lines_spec(s@));
    }
    while pos < s.len()
        invariant
            pos <= s@.len(),
            views_of(r@) + split_lines_spec(s@.skip(pos as int)) =~= split_lines_spec(s@),
        decreases s@.len() - pos,
    {
        let ghost rest = s@.skip(pos as int);
        let nl = scan_byte(s, pos, NL);
        proof {
            lemma_find_byte(rest, NL);
        }
        let line: Vec<u8> = if nl < s.len() {
            // a newline terminates this line; drop a carriage return before it
            let end = if nl > pos && s[nl - 1] == CR {
                nl - 1
            } else {
                nl
            };
            proof {
                assert(rest.take(nl - pos) =~= s@.subrange(pos as int, nl as int));
                assert(strip_cr(rest.take(nl - pos)) =~= s@.subrange(pos as int, end as int));
            }
            copy_range(s, pos, end)
        } else {
            proof {
                assert(rest =~= s@.subrange(pos as int, s@.len() as int));
            }
            copy_range(s, pos, s.len())
        };
        let ghost old_r = r@;
        let ghost old_pos = pos as int;
        r.push(line);
        if nl < s.len() {
            pos = nl + 1;
        } else {
            pos = s.len();
        }
        proof {
            assert(views_of(r@) =~= views_of(old_r).push(line@));
            if nl < s@.len() {
                assert(s@.skip(old_pos).skip(nl - old_pos + 1) =~= s@.skip(pos as int));
                assert(split_lines_spec(s@.skip(old_pos)) =~= seq![line@] + split_lines_spec(
                    s@.skip(pos as int),
                ));
            } else {
                assert(split_lines_spec(s@.skip(old_pos)) =~= seq![line@]);
                assert(split_lines_spec(s@.skip(pos as int)) =~= Seq::<Seq<u8>>::empty());
            }
            assert(views_of(r@) + split_lines_spec(s@.skip(pos as int)) =~= split_lines_spec(s@));
        }
    }
    proof {
        assert(split_lines_spec(s@.skip(pos as int)) =~= Seq::<Seq<u8>>::empty());
        assert(views_of(r@) =~= views_of(r@) + Seq::<Seq<u8>>::empty());
    }
    r
}

/// The quoted arguments of a directive line: the text strictly between
/// complete quote pairs, in order. Text after an unbalanced final quote is
/// not an argument.
pub open spec fn quoted_args(s: Seq<u8>) -> Seq<Seq<u8>>
    decreases s.len(),
{
    let j = find_byte(s, QUOTE);
    if j >= s.len() {
        seq![]
    } else {
        let rest = s.skip(j as int + 1);
        let k = find_byte(rest, QUOTE);
        if k >= rest.len() {
            seq![]
        } else {
            seq![rest.take(k as int)] + quoted_args(rest.skip(k as int + 1))
        }
    }
}

/// All lines joined, each followed by one newline.
pub open spec fn concat_nl(ls: Seq<Seq<u8>>) -> Seq<u8>
    decreases ls.len(),
{
    if ls.len() == 0 {
        Seq::empty()
    } else {
        ls[0] + seq![NL] + concat_nl(ls.skip(1))
    }
}

/// `s` with every non-overlapping occurrence of `from`, scanned left to
/// right, replaced by `to`. An empty `from` matches at every position, so
/// `to` is inserted before every byte and at the end.
pub open spec fn replace_bytes(s: Seq<u8>, from: Seq<u8>, to: Seq<u8>) -> Seq<u8>
    decreases s.len(),
{
    if from.len() == 0 {
        if s.len() == 0 {
            to
        } else {
            to + seq![s[0]] + replace_bytes(s.skip(1), from, to)
        }
    } else if s.len() == 0 {
        s
    } else if has_prefix(s, from) {
        to + replace_bytes(s.skip(from.len() as int), from, to)
    } else {
        seq![s[0]] + replace_bytes(s.skip(1), from, to)
    }
}

/// What follows the leading `to` in an empty-pattern replacement: each byte
/// of `s` followed by one more copy of `to`.
pub open spec fn empty_pat_rest(s: Seq<u8>, to: Seq<u8>) -> Seq<u8>
    decreases s.len(),
{
    if s.len() == 0 {
        Seq::empty()
    } else {
        seq![s[0]] + to + empty_pat_rest(s.skip(1), to)
    }
}

proof fn lemma_replace_empty_pat(s: Seq<u8>, to: Seq<u8>)
    ensures
        replace_bytes(s, Seq::empty(), to) =~= to + empty_pat_rest(s, to),
    decreases s.len(),
{
    if s.len() > 0 {
        lemma_replace_empty_pat(s.skip(1), to);
    }
}

pub fn replace_all(s: &[u8], from: &[u8], to: &[u8]) -> (r: Vec<u8>)
    ensures
        r@ == replace_bytes(s@, from@, to@),
{
    if from.len() == 0 {
        let mut r = copy_whole(to);
        let mut i: usize = 0;
        proof {
            assert(from@ =~= Seq::<u8>::empty());
            lemma_replace_empty_pat(s@, to@);
            assert(s@.skip(0) =~= s@);
            assert(r@ + empty_pat_rest(s@, to@) =~= replace_bytes(s@, from@, to@));
        }
        while i < s.len()
            invariant
                i <= s@.len(),
                from@.len() == 0,
                r@ + empty_pat_rest(s@.skip(i as int), to@) =~= replace_bytes(s@, from@, to@),
            decreases s@.len() - i,
        {
            let ghost rest = s@.skip(i as int);
            r.push(s[i]);
            append_bytes(&mut r, to);
            i = i + 1;
            proof {
                assert(rest[0] == s@[i - 1]);
                assert(rest.skip(1) =~= s@.skip(i as int));
                assert(empty_pat_rest(rest, to@) =~= seq![s@[i - 1]] + to@ + empty_pat_rest(
                    s@.skip(i as int),
                    to@,
                ));
                assert(r@ + empty_pat_rest(s@.skip(i as int), to@) =~= replace_bytes(
                    s@,
                    from@,
                    to@,
                ));
            }
        }
        proof {
            assert(empty_pat_rest(s@.skip(i as int), to@) =~= Seq::<u8>::empty());
            assert(r@ =~= r@ + Seq::<u8>::empty());
        }
        return r;
    }
    let mut r: Vec<u8> = Vec::new();
    let mut i: usize = 0;
    proof {
        assert(s@.skip(0) =~= s@);
        assert(r@ + replace_bytes(s@, from@, to@) =~= replace_bytes(s@, from@, to@));
    }
    while i < s.len()
        invariant
            i <= s@.len(),
            from@.len() > 0,
            r@ + replace_bytes(s@.skip(i as int), from@, to@) =~= replace_bytes(s@, from@, to@),
        decreases s@.len() - i,
    {
        let ghost rest = s@.skip(i as int);
        let ghost old_r = r@;
        let matched = if from.len() <= s.len() - i {
            let (_, tail) = s.split_at(i);
            starts_with_bytes(tail, from)
        } else {
            false
        };
        proof {
            if from@.len() > s@.len() - i {
                assert(!has_prefix(rest, from@));
            }
        }
        if matched {
            append_bytes(&mut r, to);
            i = i + from.len();
            proof {
                assert(rest.skip(from@.len() as int) =~= s@.skip(i as int));
                assert(replace_bytes(rest, from@, to@) =~= to@ + replace_bytes(
                    s@.skip(i as int),
                    from@,
                    to@,
                ));
                assert(r@ + replace_bytes(s@.skip(i as int), from@, to@) =~= replace_bytes(
                    s@,
                    from@,
                    to@,
                ));
            }
        } else {
            r.push(s[i]);
            i = i + 1;
            proof {
                assert(rest[0] == s@[i - 1]);
                assert(rest.skip(1) =~= s@.skip(i as int));
                assert(replace_bytes(rest, from@, to@) =~= seq![s@[i - 1]] + replace_bytes(
                    s@.skip(i as int),
                    from@,
                    to@,
                ));
                assert(r@ =~= old_r.push(s@[i - 1]));
                assert(r@ + replace_bytes(s@.skip(i as int), from@, to@) =~= replace_bytes(
                    s@,
                    from@,
                    to@,
                ));
            }
        }
    }
    proof {
        assert(s@.skip(i as int).len() == 0);
        assert(replace_bytes(s@.skip(i as int), from@, to@) =~= Seq::<u8>::empty());
        assert(r@ =~= r@ + Seq::<u8>::empty());
    }
    r
}

pub fn copy_whole(s: &[u8]) -> (r: Vec<u8>)
    ensures
        r@ == s@,
{
    let r = copy_range(s, 0, s.len());
    proof {
        assert(s@.subrange(0, s@.len() as int) =~= s@);
    }
    r
}

/// Numeric value of a digit string, most significant digit first.
pub open spec fn digits_val(s: Seq<u8>) -> nat
    decreases s.len(),
{
    if s.len() == 0 {
        0
    } else {
        digits_val(s.drop_last()) * 10 + (s.last() - 48) as nat
    }
}

pub open spec fn is_digit(b: u8) -> bool {
    48 <= b <= 57
}

pub open spec fn all_digits(s: Seq<u8>) -> bool {
    forall|k: int| 0 <= k < s.len() ==> is_digit(s[k])
}

/// The digit body of an unsigned decimal argument: one optional leading `+`
/// stripped, the way the standard unsigned integer parse accepts it.
pub open spec fn unsigned_body(s: Seq<u8>) -> Seq<u8> {
    if s.len() > 0 && s[0] == PLUS {
        s.skip(1)
    } else {
        s
    }
}

/// The value of an unsigned decimal argument when it parses as a `usize`:
/// an optional `+`, then at least one digit, with a value that fits.
pub open spec fn usize_arg(s: Seq<u8>) -> Option<nat> {
    let body = unsigned_body(s);
    if body.len() > 0 && all_digits(body) && digits_val(body) <= usize::MAX {
        Some(digits_val(body))
    } else {
        None
    }
}

pub proof fn lemma_digits_val_take(s: Seq<u8>, i: int)
    requires
        0 <= i < s.len(),
    ensures
        digits_val(s.take(i + 1)) == digits_val(s.take(i)) * 10 + ((s[i] - 48) as nat),
{
    assert(s.take(i + 1).drop_last() =~= s.take(i));
    assert(s.take(i + 1).last() == s[i]);
}

/// Parses the digit body of `digits` (after an optional `+`) as a `usize`.
pub fn parse_usize(arg: &[u8]) -> (r: Option<usize>)
    ensures
        match r {
            Some(v) => usize_arg(arg@) == Some(v as nat),
            None => usize_arg(arg@) is None,
        },
{
    let start: usize = if arg.len() > 0 && arg[0] == PLUS {
        1
    } else {
        0
    };
    let (_, body) = arg.split_at(start);
    proof {
        assert(body@ =~= unsigned_body(arg@));
    }
    if body.len() == 0 {
        return None;
    }
    let mut acc: usize = 0;
    let mut i: usize = 0;
    proof {
        assert(body@.take(0) =~= Seq::<u8>::empty());
    }
    while i < body.len()
        invariant
            body@ == unsigned_body(arg@),
            i <= body@.len(),
            all_digits(body@.take(i as int)),
            acc == digits_val(body@.take(i as int)),
            acc <= usize::MAX,
        decreases body@.len() - i,
    {
        let b = body[i];
        if !(48 <= b && b <= 57) {
            proof {
                assert(!is_digit(body@[i as int]));
                assert(!all_digits(unsigned_body(arg@)));
                assert(usize_arg(arg@) is None);
            }
            return None;
        }
        let d = (b - 48) as usize;
        proof {
            lemma_digits_val_take(body@, i as int);
        }
        if acc > usize::MAX / 10 || (acc == usize::MAX / 10 && d > usize::MAX % 10) {
            // the digits so far already overflow a usize; more digits only grow it
            proof {
                assert(acc * 10 + d > usize::MAX) by (nonlinear_arith)
                    requires
                        acc > usize::MAX / 10 || (acc == usize::MAX / 10 && d > usize::MAX % 10),
                        d < 10,
                        usize::MAX == usize::MAX / 10 * 10 + usize::MAX % 10,
                ;
                lemma_digits_val_exceeds(body@, i as int, usize::MAX as nat);
                assert(digits_val(unsigned_body(arg@)) > usize::MAX);
                assert(usize_arg(arg@) is None);
            }
            return None;
        }
        proof {
            assert(acc * 10 + d <= usize::MAX) by (nonlinear_arith)
                requires
                    acc <= usize::MAX / 10,
                    !(acc == usize::MAX / 10 && d > usize::MAX % 10),
                    d < 10,
                    usize::MAX == usize::MAX / 10 * 10 + usize::MAX % 10,
            ;
        }
        acc = acc * 10 + d;
        i = i + 1;
        proof {
            assert(all_digits(body@.take(i as int)));
        }
    }
    proof {
        assert(body@.take(body@.len() as int) =~= body@);
    }
    Some(acc)
}

/// Once a digit prefix exceeds a bound, the whole digit string does.
pub proof fn lemma_digits_val_exceeds(s: Seq<u8>, i: int, bound: nat)
    requires
        0 <= i < s.len(),
        digits_val(s.take(i)) * 10 + ((s[i] - 48) as nat) > bound,
    ensures
        digits_val(s) > bound,
{
    lemma_digits_val_take(s, i);
    lemma_digits_val_grows(s, i + 1);
}

proof fn lemma_digits_val_grows(s: Seq<u8>, i: int)
    requires
        0 <= i <= s.len(),
    ensures
        digits_val(s) >= digits_val(s.take(i)),
    decreases s.len() - i,
{
    if i < s.len() {
        lemma_digits_val_take(s, i);
        let a = digits_val(s.take(i));
        assert(a * 10 == a + a + a + a + a + a + a + a + a + a) by (nonlinear_arith);
        lemma_digits_val_grows(s, i + 1);
    } else {
        assert(s.take(i) =~= s);
    }
}

/// Whether any ASCII whitespace byte occurs in `s`.
pub open spec fn has_space(s: Seq<u8>) -> bool {
    exists|k: int| 0 <= k < s.len() && is_space(s[k])
}

pub fn contains_space(s: &[u8]) -> (r: bool)
    ensures
        r == has_space(s@),
{
    let mut i: usize = 0;
    while i < s.len()
        invariant
            i <= s@.len(),
            forall|k: int| 0 <= k < i ==> !is_space(s@[k]),
        decreases s@.len() - i,
    {
        if is_space_byte(s[i]) {
            return true;
        }
        i = i + 1;
    }
    false
}

/// The value of an unsigned decimal argument when it parses as a `u16`.
pub open spec fn u16_arg(s: Seq<u8>) -> Option<nat> {
    match usize_arg(s) {
        Option::Some(v) => if v <= u16::MAX {
            Option::Some(v)
        } else {
            Option::None
        },
        Option::None => Option::None,
    }
}

/// Parses an unsigned decimal argument as a `u16`.
pub fn parse_u16(arg: &[u8]) -> (r: Option<u16>)
    ensures
        match r {
            Some(v) => u16_arg(arg@) == Some(v as nat),
            None => u16_arg(arg@) is None,
        },
{
    match parse_usize(arg) {
        Some(v) => if v <= 65535 {
            Some(v as u16)
        } else {
            None
        },
        None => None,
    }
}

/// The ASCII upper-case fold used for single-character key names.
pub open spec fn ascii_upper(b: u8) -> u8 {
    if 97 <= b <= 122 {
        (b - 32) as u8
    } else {
        b
    }
}

pub fn to_ascii_upper(b: u8) -> (r: u8)
    ensures
        r == ascii_upper(b),
{
    if 97 <= b && b <= 122 {
        b - 32
    } else {
        b
    }
}

} // verus!

