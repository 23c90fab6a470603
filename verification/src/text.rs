//! Character-sequence helpers shared by the assembler, the request parser
//! and the output classifier.
//!
//! Text is modelled as `Seq<char>`. The executable functions work on
//! `Vec<char>` buffers and state their results over that model.

use vstd::prelude::*;

verus! {

/// `String::push` appends one character to the end of the string.
pub assume_specification[ String::push ](s: &mut String, c: char)
    ensures
        final(s)@ == old(s)@.push(c),
;

/// The characters of `s`, in order.
pub fn to_chars(s: &str) -> (out: Vec<char>)
    ensures
        out@ == s@,
{
    let mut out: Vec<char> = Vec::new();
    for c in it: s.chars()
        invariant
            out@ == it.seq().take(it.index() as int),
    {
        out.push(c);
    }
    out
}

/// The string made of the characters of `v`, in order.
pub fn to_string(v: &Vec<char>) -> (out: String)
    ensures
        out@ == v@,
{
    let mut out = String::new();
    let mut i: usize = 0;
    while i < v.len()
        invariant
            i <= v.len(),
            out@ == v@.take(i as int),
        decreases v.len() - i,
    {
        out.push(v[i]);
        i += 1;
    }
    out
}

/// Appends the text of `src` to `dst`.
pub fn append(dst: &mut Vec<char>, src: &Vec<char>)
    ensures
        final(dst)@ == old(dst)@ + src@,
{
    let mut i: usize = 0;
    proof {
        assert(dst@ =~= old(dst)@ + src@.take(0));
    }
    while i < src.len()
        invariant
            i <= src.len(),
            dst@ == old(dst)@ + src@.take(i as int),
        decreases src.len() - i,
    {
        proof {
            assert((old(dst)@ + src@.take(i as int)).push(src@[i as int]) =~= old(dst)@ + src@.take(
                i + 1,
            ));
        }
        dst.push(src[i]);
        i += 1;
    }
    proof {
        assert(src@.take(src.len() as int) =~= src@);
    }
}

/// Appends the text of `src` to `dst`.
pub fn append_str(dst: &mut Vec<char>, src: &str)
    ensures
        final(dst)@ == old(dst)@ + src@,
{
    let chars = to_chars(src);
    append(dst, &chars);
}

/// Whether `c` has the Unicode `White_Space` property.
pub open spec fn is_space(c: char) -> bool {
    let n = c as u32;
    ||| 0x09 <= n <= 0x0D
    ||| n == 0x20
    ||| n == 0x85
    ||| n == 0xA0
    ||| n == 0x1680
    ||| 0x2000 <= n <= 0x200A
    ||| n == 0x2028
    ||| n == 0x2029
    ||| n == 0x202F
    ||| n == 0x205F
    ||| n == 0x3000
}

/// Whether `c` is whitespace, as `char::is_whitespace` has it.
pub fn is_whitespace(c: char) -> (b: bool)
    ensures
        b == is_space(c),
{
    let n: u32 = c as u32;
    (0x09 <= n && n <= 0x0D) || n == 0x20 || n == 0x85 || n == 0xA0 || n == 0x1680 || (0x2000 <= n
        && n <= 0x200A) || n == 0x2028 || n == 0x2029 || n == 0x202F || n == 0x205F || n == 0x3000
}

/// `s` without its leading whitespace.
pub open spec fn trim_start_of(s: Seq<char>) -> Seq<char>
    decreases s.len(),
{
    if s.len() > 0 && is_space(s[0]) {
        trim_start_of(s.drop_first())
    } else {
        s
    }
}

/// `s` without its trailing whitespace.
pub open spec fn trim_end_of(s: Seq<char>) -> Seq<char>
    decreases s.len(),
{
    if s.len() > 0 && is_space(s.last()) {
        trim_end_of(s.drop_last())
    } else {
        s
    }
}

/// `s` without its leading and trailing whitespace.
pub open spec fn trimmed(s: Seq<char>) -> Seq<char> {
    trim_end_of(trim_start_of(s))
}

/// Trimming at the end leaves a prefix of the text that does not end in
/// whitespace, and removes nothing but whitespace.
pub proof fn lemma_trim_end(s: Seq<char>)
    ensures
        trim_end_of(s).len() <= s.len(),
        trim_end_of(s) == s.take(trim_end_of(s).len() as int),
        trim_end_of(s).len() > 0 ==> !is_space(trim_end_of(s).last()),
        forall|i: int| trim_end_of(s).len() <= i < s.len() ==> is_space(s[i]),
    decreases s.len(),
{
    if s.len() > 0 && is_space(s.last()) {
        lemma_trim_end(s.drop_last());
        let t = trim_end_of(s);
        assert(t == s.take(t.len() as int)) by {
            assert(s.drop_last().take(t.len() as int) =~= s.take(t.len() as int));
        }
        assert forall|i: int| t.len() <= i < s.len() implies is_space(s[i]) by {
            if i < s.len() - 1 {
                assert(s[i] == s.drop_last()[i]);
            }
        }
    } else {
        assert(s.take(s.len() as int) =~= s);
    }
}

/// Trimming at the start leaves a suffix of the text that does not begin
/// with whitespace, and removes nothing but whitespace.
pub proof fn lemma_trim_start(s: Seq<char>)
    ensures
        trim_start_of(s).len() <= s.len(),
        trim_start_of(s) == s.skip(s.len() - trim_start_of(s).len()),
        trim_start_of(s).len() > 0 ==> !is_space(trim_start_of(s)[0]),
        forall|i: int| 0 <= i < s.len() - trim_start_of(s).len() ==> is_space(s[i]),
    decreases s.len(),
{
    if s.len() > 0 && is_space(s[0]) {
        let r = s.drop_first();
        lemma_trim_start(r);
        let t = trim_start_of(s);
        assert(t == s.skip(s.len() - t.len())) by {
            assert(r.skip(r.len() - t.len()) =~= s.skip(s.len() - t.len()));
        }
        assert forall|i: int| 0 <= i < s.len() - t.len() implies is_space(s[i]) by {
            if i > 0 {
                assert(s[i] == r[i - 1]);
            }
        }
    } else {
        assert(s.skip(0) =~= s);
    }
}

/// Text that neither begins nor ends with whitespace is left as it is.
pub proof fn lemma_trimmed_fixed(s: Seq<char>)
    requires
        s.len() > 0 ==> !is_space(s[0]) && !is_space(s.last()),
    ensures
        trimmed(s) == s,
{
}

/// The characters of `s` from `from` up to, not including, `to`.
pub fn subrange(s: &Vec<char>, from: usize, to: usize) -> (out: Vec<char>)
    requires
        from <= to <= s.len(),
    ensures
        out@ == s@.subrange(from as int, to as int),
{
    let mut out: Vec<char> = Vec::new();
    let mut i: usize = from;
    while i < to
        invariant
            from <= i <= to <= s.len(),
            out@ == s@.subrange(from as int, i as int),
        decreases to - i,
    {
        out.push(s[i]);
        i += 1;
    }
    out
}

/// `s` without its trailing whitespace: the longest prefix of `s` that does
/// not end in whitespace.
pub fn trim_end(s: &Vec<char>) -> (out: Vec<char>)
    ensures
        out@ == trim_end_of(s@),
        out@.is_prefix_of(s@),
        out@.len() > 0 ==> !is_space(out@.last()),
        forall|i: int| out@.len() <= i < s@.len() ==> is_space(s@[i]),
{
    let mut b: usize = s.len();
    proof {
        assert(s@.take(b as int) =~= s@);
        lemma_trim_end(s@);
    }
    while b > 0 && is_whitespace(s[b - 1])
        invariant
            b <= s.len(),
            trim_end_of(s@) == trim_end_of(s@.take(b as int)),
        decreases b,
    {
        proof {
            assert(s@.take(b as int).drop_last() =~= s@.take(b - 1));
        }
        b -= 1;
    }
    proof {
        assert(s@.take(0) =~= Seq::<char>::empty());
        assert(s@.subrange(0, b as int) =~= s@.take(b as int));
    }
    subrange(s, 0, b)
}

/// `s` without its leading and trailing whitespace.
pub fn trim(s: &Vec<char>) -> (out: Vec<char>)
    ensures
        out@ == trimmed(s@),
        out@.len() > 0 ==> !is_space(out@[0]) && !is_space(out@.last()),
{
    let n = s.len();
    let mut a: usize = 0;
    proof {
        assert(s@.skip(0) =~= s@);
        lemma_trim_start(s@);
        lemma_trim_end(trim_start_of(s@));
    }
    while a < n && is_whitespace(s[a])
        invariant
            a <= n == s.len(),
            trim_start_of(s@) == trim_start_of(s@.skip(a as int)),
        decreases n - a,
    {
        proof {
            assert(s@.skip(a as int).drop_first() =~= s@.skip(a + 1));
        }
        a += 1;
    }
    let mut b: usize = n;
    proof {
        assert(s@.skip(a as int) =~= s@.subrange(a as int, n as int));
    }
    while b > a && is_whitespace(s[b - 1])
        invariant
            a <= b <= n == s.len(),
            trimmed(s@) == trim_end_of(s@.subrange(a as int, b as int)),
        decreases b,
    {
        proof {
            assert(s@.subrange(a as int, b as int).drop_last() =~= s@.subrange(a as int, b - 1));
        }
        b -= 1;
    }
    subrange(s, a, b)
}

/// Whether `s` begins with `prefix`.
pub fn starts_with(s: &Vec<char>, prefix: &Vec<char>) -> (b: bool)
    ensures
        b == prefix@.is_prefix_of(s@),
{
    if prefix.len() > s.len() {
        return false;
    }
    let mut i: usize = 0;
    while i < prefix.len()
        invariant
            i <= prefix.len() <= s.len(),
            s@.take(i as int) == prefix@.take(i as int),
        decreases prefix.len() - i,
    {
        if s[i] != prefix[i] {
            proof {
                assert(s@.subrange(0, prefix.len() as int)[i as int] != prefix@[i as int]);
            }
            return false;
        }
        proof {
            assert(s@.take(i + 1) =~= s@.take(i as int).push(s@[i as int]));
            assert(prefix@.take(i + 1) =~= prefix@.take(i as int).push(prefix@[i as int]));
        }
        i += 1;
    }
    proof {
        assert(prefix@.take(prefix.len() as int) =~= prefix@);
    }
    true
}

/// Whether the two buffers hold the same text.
pub fn same_text(a: &Vec<char>, b: &Vec<char>) -> (eq: bool)
    ensures
        eq == (a@ == b@),
{
    if a.len() != b.len() {
        return false;
    }
    let r = starts_with(a, b);
    proof {
        assert(b@.is_prefix_of(a@) ==> a@ =~= b@);
    }
    r
}

/// Index of the first `c` in `s`, or the length of `s` where it holds none.
pub open spec fn first_index(s: Seq<char>, c: char) -> int
    decreases s.len(),
{
    if s.len() == 0 || s[0] == c {
        0
    } else {
        1 + first_index(s.drop_first(), c)
    }
}

/// `first_index` is in range, points at `c` when it is below the length, and
/// no `c` stands before it.
pub proof fn lemma_first_index(s: Seq<char>, c: char)
    ensures
        0 <= first_index(s, c) <= s.len(),
        first_index(s, c) < s.len() ==> s[first_index(s, c)] == c,
        forall|j: int| 0 <= j < first_index(s, c) ==> s[j] != c,
    decreases s.len(),
{
    if s.len() == 0 || s[0] == c {
    } else {
        let r = s.drop_first();
        lemma_first_index(r, c);
        assert forall|j: int| 0 <= j < first_index(s, c) implies s[j] != c by {
            if j > 0 {
                assert(s[j] == r[j - 1]);
            }
        }
    }
}

/// Index of the first `c` at or after `from`, or the length of `s`.
pub fn find_char(s: &Vec<char>, from: usize, c: char) -> (k: usize)
    requires
        from <= s.len(),
    ensures
        from <= k <= s.len(),
        k == from + first_index(s@.skip(from as int), c),
        k < s.len() ==> s@[k as int] == c,
        forall|j: int| from <= j < k ==> s@[j] != c,
{
    proof {
        let tail = s@.skip(from as int);
        lemma_first_index(tail, c);
        assert forall|j: int| from <= j < from + first_index(tail, c) implies s@[j] != c by {
            assert(tail[j - from] == s@[j]);
        }
    }
    let mut i: usize = from;
    while i < s.len() && s[i] != c
        invariant
            from <= i <= s.len(),
            first_index(s@.skip(from as int), c) == (i - from) + first_index(s@.skip(i as int), c),
        decreases s.len() - i,
    {
        proof {
            assert(s@.skip(i as int).drop_first() =~= s@.skip(i + 1));
        }
        i += 1;
    }
    i
}

/// The pieces of `s` between occurrences of `sep`: one more piece than there
/// are separators, so the empty text has one empty piece.
pub open spec fn split_on(s: Seq<char>, sep: char) -> Seq<Seq<char>>
    decreases s.len(),
{
    let k = first_index(s, sep);
    if 0 <= k < s.len() {
        seq![s.take(k)] + split_on(s.skip(k + 1), sep)
    } else {
        seq![s]
    }
}

/// Joins `parts` with `sep` between neighbours.
pub open spec fn join(parts: Seq<Seq<char>>, sep: char) -> Seq<char>
    decreases parts.len(),
{
    if parts.len() == 0 {
        Seq::empty()
    } else if parts.len() == 1 {
        parts[0]
    } else {
        parts[0] + seq![sep] + join(parts.drop_first(), sep)
    }
}

/// Splitting loses nothing: no piece holds the separator, and joining the
/// pieces with the separator gives the text back.
pub proof fn lemma_split_join(s: Seq<char>, sep: char)
    ensures
        split_on(s, sep).len() >= 1,
        forall|i: int| 0 <= i < split_on(s, sep).len() ==> !(#[trigger] split_on(s, sep)[i]).contains(sep),
        join(split_on(s, sep), sep) == s,
    decreases s.len(),
{
    lemma_first_index(s, sep);
    let k = first_index(s, sep);
    if 0 <= k < s.len() {
        let rest = s.skip(k + 1);
        lemma_split_join(rest, sep);
        let parts = split_on(s, sep);
        assert(parts.drop_first() =~= split_on(rest, sep));
        assert(parts[0] == s.take(k));
        assert(join(parts, sep) =~= s);
        assert forall|i: int| 0 <= i < parts.len() implies !(#[trigger] parts[i]).contains(sep) by {
            if i > 0 {
                assert(parts[i] == split_on(rest, sep)[i - 1]);
            }
        }
    } else {
        assert(split_on(s, sep) =~= seq![s]);
    }
}

/// The pieces of `s` between occurrences of `sep`.
pub fn split(s: &Vec<char>, sep: char) -> (parts: Vec<Vec<char>>)
    ensures
        parts.deep_view() == split_on(s@, sep),
        parts.len() >= 1,
        join(parts.deep_view(), sep) == s@,
        forall|i: int| 0 <= i < parts.len() ==> !(#[trigger] parts.deep_view()[i]).contains(sep),
{
    proof {
        lemma_split_join(s@, sep);
    }
    let mut parts: Vec<Vec<char>> = Vec::new();
    let mut start: usize = 0;
    let mut k: usize = find_char(s, 0, sep);
    proof {
        assert(s@.skip(0) =~= s@);
        assert(parts.deep_view() + split_on(s@, sep) =~= split_on(s@, sep));
    }
    while k < s.len()
        invariant
            start <= k <= s.len(),
            k == start + first_index(s@.skip(start as int), sep),
            split_on(s@, sep) == parts.deep_view() + split_on(s@.skip(start as int), sep),
        decreases s.len() - start,
    {
        let piece = subrange(s, start, k);
        proof {
            let tail = s@.skip(start as int);
            assert(tail.take(k - start) =~= s@.subrange(start as int, k as int));
            assert(tail.skip(k - start + 1) =~= s@.skip(k + 1));
            assert(parts.deep_view().push(piece@) + split_on(s@.skip(k + 1), sep) =~= parts.deep_view()
                + split_on(tail, sep));
        }
        let ghost before = parts.deep_view();
        parts.push(piece);
        proof {
            assert(parts.deep_view() =~~= before.push(piece@));
        }
        start = k + 1;
        k = find_char(s, start, sep);
    }
    let piece = subrange(s, start, s.len());
    proof {
        assert(s@.subrange(start as int, s.len() as int) =~= s@.skip(start as int));
        assert(parts.deep_view().push(piece@) =~= parts.deep_view() + seq![piece@]);
    }
    let ghost before = parts.deep_view();
    parts.push(piece);
    proof {
        assert(parts.deep_view() =~~= before.push(piece@));
    }
    parts
}

/// Whether `needle` stands in `hay` at position `i`.
pub open spec fn occurs_at(hay: Seq<char>, needle: Seq<char>, i: int) -> bool {
    &&& 0 <= i
    &&& i + needle.len() <= hay.len()
    &&& hay.subrange(i, i + needle.len()) == needle
}

/// Whether `needle` stands somewhere in `hay`.
pub open spec fn occurs_in(hay: Seq<char>, needle: Seq<char>) -> bool {
    exists|i: int| occurs_at(hay, needle, i)
}

/// Position of the first occurrence of `needle` in `hay` at or after `from`.
pub open spec fn first_match(hay: Seq<char>, needle: Seq<char>, from: int) -> Option<int>
    decreases hay.len() - from + 1,
{
    if from < 0 || from + needle.len() > hay.len() {
        None
    } else if occurs_at(hay, needle, from) {
        Some(from)
    } else {
        first_match(hay, needle, from + 1)
    }
}

/// Position of the last occurrence of `needle` in `hay` at or before `upto`.
pub open spec fn last_match(hay: Seq<char>, needle: Seq<char>, upto: int) -> Option<int>
    decreases upto + 1,
{
    if upto < 0 {
        None
    } else if occurs_at(hay, needle, upto) {
        Some(upto)
    } else {
        last_match(hay, needle, upto - 1)
    }
}

/// `first_match` finds an occurrence with none before it, and finds nothing
/// only where there is none.
pub proof fn lemma_first_match(hay: Seq<char>, needle: Seq<char>, from: int)
    requires
        0 <= from,
    ensures
        match first_match(hay, needle, from) {
            Some(i) => from <= i && occurs_at(hay, needle, i) && forall|j: int|
                from <= j < i ==> !occurs_at(hay, needle, j),
            None => forall|j: int| from <= j ==> !occurs_at(hay, needle, j),
        },
    decreases hay.len() - from + 1,
{
    if from + needle.len() > hay.len() {
    } else if occurs_at(hay, needle, from) {
    } else {
        lemma_first_match(hay, needle, from + 1);
    }
}

/// `last_match` finds an occurrence with none after it up to `upto`, and
/// finds nothing only where there is none.
pub proof fn lemma_last_match(hay: Seq<char>, needle: Seq<char>, upto: int)
    ensures
        match last_match(hay, needle, upto) {
            Some(i) => 0 <= i <= upto && occurs_at(hay, needle, i) && forall|j: int|
                i < j <= upto ==> !occurs_at(hay, needle, j),
            None => forall|j: int| j <= upto ==> !occurs_at(hay, needle, j),
        },
    decreases upto + 1,
{
    if upto < 0 {
    } else if occurs_at(hay, needle, upto) {
    } else {
        lemma_last_match(hay, needle, upto - 1);
    }
}

/// Whether `needle` stands in `hay` at position `i`.
pub fn matches_at(hay: &Vec<char>, needle: &Vec<char>, i: usize) -> (b: bool)
    ensures
        b == occurs_at(hay@, needle@, i as int),
{
    if needle.len() > hay.len() || i > hay.len() - needle.len() {
        return false;
    }
    let mut j: usize = 0;
    while j < needle.len()
        invariant
            j <= needle.len(),
            i + needle.len() <= hay.len(),
            hay@.subrange(i as int, i + j) == needle@.take(j as int),
        decreases needle.len() - j,
    {
        if hay[i + j] != needle[j] {
            proof {
                assert(hay@.subrange(i as int, i + needle.len())[j as int] != needle@[j as int]);
            }
            return false;
        }
        proof {
            assert(hay@.subrange(i as int, i + j + 1) =~= hay@.subrange(i as int, i + j).push(
                hay@[i + j],
            ));
            assert(needle@.take(j + 1) =~= needle@.take(j as int).push(needle@[j as int]));
        }
        j += 1;
    }
    proof {
        assert(needle@.take(needle.len() as int) =~= needle@);
    }
    true
}

/// Position of the first occurrence of `needle` in `hay`.
pub fn find(hay: &Vec<char>, needle: &Vec<char>) -> (r: Option<usize>)
    ensures
        match r {
            Some(i) => {
                &&& i + needle.len() <= hay.len()
                &&& first_match(hay@, needle@, 0) == Some(i as int)
                &&& occurs_at(hay@, needle@, i as int)
                &&& forall|j: int| 0 <= j < i ==> !occurs_at(hay@, needle@, j)
            },
            None => first_match(hay@, needle@, 0) is None && !occurs_in(hay@, needle@),
        },
{
    proof {
        lemma_first_match(hay@, needle@, 0);
    }
    if needle.len() > hay.len() {
        return None;
    }
    let last: usize = hay.len() - needle.len();
    let mut i: usize = 0;
    while i < last && !matches_at(hay, needle, i)
        invariant
            i <= last,
            last + needle.len() == hay.len(),
            first_match(hay@, needle@, 0) == first_match(hay@, needle@, i as int),
        decreases last - i,
    {
        i += 1;
    }
    if matches_at(hay, needle, i) {
        Some(i)
    } else {
        proof {
            assert(first_match(hay@, needle@, i + 1) is None);
        }
        None
    }
}

/// Position of the last occurrence of `needle` in `hay`.
pub fn rfind(hay: &Vec<char>, needle: &Vec<char>) -> (r: Option<usize>)
    ensures
        match r {
            Some(i) => {
                &&& i + needle.len() <= hay.len()
                &&& last_match(hay@, needle@, hay@.len() as int) == Some(i as int)
                &&& occurs_at(hay@, needle@, i as int)
                &&& forall|j: int| i < j ==> !occurs_at(hay@, needle@, j)
            },
            None => last_match(hay@, needle@, hay@.len() as int) is None && !occurs_in(
                hay@,
                needle@,
            ),
        },
{
    proof {
        lemma_last_match(hay@, needle@, hay@.len() as int);
    }
    if matches_at(hay, needle, hay.len()) {
        return Some(hay.len());
    }
    let mut i: usize = hay.len();
    while i > 0 && !matches_at(hay, needle, i - 1)
        invariant
            i <= hay.len(),
            last_match(hay@, needle@, hay@.len() as int) == last_match(hay@, needle@, i - 1),
        decreases i,
    {
        i -= 1;
    }
    if i > 0 {
        Some(i - 1)
    } else {
        None
    }
}

/// Whether `needle` stands somewhere in `hay`.
pub fn contains(hay: &Vec<char>, needle: &Vec<char>) -> (b: bool)
    ensures
        b == occurs_in(hay@, needle@),
{
    find(hay, needle).is_some()
}

} // verus!
