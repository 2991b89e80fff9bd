//! Text as sequences of characters: searching, trimming, splitting, replacing
//! and the few number formats that the reports use.
use vstd::prelude::*;

verus! {

/// `String::push` appends one character.
pub assume_specification[ String::push ](s: &mut String, c: char)
    ensures
        final(s)@ == old(s)@.push(c),
;

/// The characters with Unicode's `White_Space` property.
pub open spec fn is_white_space(c: char) -> bool {
    let u = c as u32;
    ||| 0x9 <= u <= 0xd
    ||| u == 0x20
    ||| u == 0x85
    ||| u == 0xa0
    ||| u == 0x1680
    ||| 0x2000 <= u <= 0x200a
    ||| u == 0x2028
    ||| u == 0x2029
    ||| u == 0x202f
    ||| u == 0x205f
    ||| u == 0x3000
}

/// `char::is_whitespace` tells exactly the characters with the `White_Space`
/// property.
pub assume_specification[ char::is_whitespace ](c: char) -> (b: bool)
    ensures
        b == is_white_space(c),
;

/// What `str::to_lowercase` gives.
pub uninterp spec fn lowercase(s: Seq<char>) -> Seq<char>;

/// Whether every character is an ASCII one.
pub open spec fn is_ascii(s: Seq<char>) -> bool {
    forall|i: int| 0 <= i < s.len() ==> (#[trigger] s[i]) as u32 <= 0x7f
}

/// An ASCII character in lower case.
pub open spec fn ascii_lower(c: char) -> char {
    if 'A' <= c <= 'Z' {
        (c as u32 + 32) as char
    } else {
        c
    }
}

/// `str::to_lowercase` gives its argument in lower case, by Unicode's rules. Of
/// ASCII text it changes just the capital letters.
#[verifier::external_body]
pub(crate) fn to_lower(s: &str) -> (r: String)
    ensures
        r@ == lowercase(s@),
        is_ascii(s@) ==> r@ == Seq::new(s@.len(), |i: int| ascii_lower(s@[i])),
{
    s.to_lowercase()
}

/// What the strings of a list hold.
pub open spec fn texts(v: Seq<String>) -> Seq<Seq<char>> {
    Seq::new(v.len(), |i: int| v[i]@)
}

/// What an optional string holds.
pub open spec fn opt_text(s: Option<String>) -> Option<Seq<char>> {
    match s {
        Some(t) => Some(t@),
        None => None,
    }
}

/// What an optional string slice holds.
pub open spec fn opt_str(s: Option<&str>) -> Option<Seq<char>> {
    match s {
        Some(t) => Some(t@),
        None => None,
    }
}

/// The characters of `s`, in order.
pub fn to_chars(s: &str) -> (v: Vec<char>)
    ensures
        v@ == s@,
{
    let mut v: Vec<char> = Vec::new();
    for c in it: s.chars()
        invariant
            v@ == it.seq().take(it.index() as int),
            it.seq() == s@,
    {
        v.push(c);
    }
    v
}

/// The string made of the characters `from..to` of `v`.
pub fn slice_text(v: &Vec<char>, from: usize, to: usize) -> (s: String)
    requires
        from <= to <= v@.len(),
    ensures
        s@ == v@.subrange(from as int, to as int),
{
    let mut s = String::new();
    let mut i: usize = from;
    while i < to
        invariant
            from <= i <= to <= v@.len(),
            s@ == v@.subrange(from as int, i as int),
        decreases to - i,
    {
        s.push(v[i]);
        i = i + 1;
        assert(v@.subrange(from as int, i as int) =~= v@.subrange(from as int, i - 1).push(v@[i - 1]));
    }
    s
}

/// Whether two strings hold the same text.
pub fn same_text(a: &str, b: &str) -> (r: bool)
    ensures
        r == (a@ == b@),
{
    a.to_owned() == b.to_owned()
}

/// `c` written `n` times.
pub open spec fn repeated(c: char, n: nat) -> Seq<char> {
    Seq::new(n, |i: int| c)
}

/// Appends `c` to `out`, `n` times.
pub fn append_repeated(out: &mut String, c: char, n: usize)
    ensures
        final(out)@ == old(out)@ + repeated(c, n as nat),
{
    let ghost start = out@;
    let mut i: usize = 0;
    assert(start + repeated(c, 0) =~= start);
    while i < n
        invariant
            i <= n,
            out@ == start + repeated(c, i as nat),
        decreases n - i,
    {
        out.push(c);
        i = i + 1;
        assert((start + repeated(c, (i - 1) as nat)).push(c) =~= start + repeated(c, i as nat));
    }
}

/// The position of the first `c` in `s`, or the length of `s` where there is
/// none.
pub open spec fn first_of(s: Seq<char>, c: char) -> int
    decreases s.len(),
{
    if s.len() == 0 || s[0] == c {
        0
    } else {
        1 + first_of(s.skip(1), c)
    }
}

/// What `first_of` means, position by position.
pub proof fn lemma_first_of(s: Seq<char>, c: char)
    ensures
        0 <= first_of(s, c) <= s.len(),
        first_of(s, c) < s.len() ==> s[first_of(s, c)] == c,
        forall|j: int| 0 <= j < first_of(s, c) ==> s[j] != c,
        first_of(s, c) < s.len() <==> s.contains(c),
    decreases s.len(),
{
    if s.len() > 0 && s[0] != c {
        let t = s.skip(1);
        lemma_first_of(t, c);
        let n = first_of(t, c);
        assert forall|j: int| 0 <= j < 1 + n implies s[j] != c by {
            if j > 0 {
                assert(s[j] == t[j - 1]);
            }
        }
        if s.contains(c) {
            let k = choose|k: int| 0 <= k < s.len() && s[k] == c;
            assert(t[k - 1] == c);
        }
        if n < t.len() {
            assert(s[n + 1] == t[n]);
        }
    }
}

/// A position at which `c` stands for the first time is the one that
/// `first_of` gives.
pub proof fn lemma_first_of_is(s: Seq<char>, c: char, i: int)
    requires
        0 <= i <= s.len(),
        i < s.len() ==> s[i] == c,
        forall|j: int| 0 <= j < i ==> s[j] != c,
    ensures
        first_of(s, c) == i,
{
    lemma_first_of(s, c);
}

/// Finds the first `c` in `v` at or after `from`.
pub fn find_from(v: &Vec<char>, from: usize, c: char) -> (i: usize)
    requires
        from <= v@.len(),
    ensures
        i == from + first_of(v@.skip(from as int), c),
        from <= i <= v@.len(),
        i < v@.len() ==> v@[i as int] == c,
        forall|j: int| from <= j < i ==> v@[j] != c,
{
    let mut i: usize = from;
    while i < v.len() && v[i] != c
        invariant
            from <= i <= v@.len(),
            forall|j: int| from <= j < i ==> v@[j] != c,
        decreases v@.len() - i,
    {
        i = i + 1;
    }
    proof {
        let t = v@.skip(from as int);
        lemma_first_of_is(t, c, i - from);
    }
    i
}

/// The position of the last `c` in `s`, or -1 where there is none.
pub open spec fn last_of(s: Seq<char>, c: char) -> int
    decreases s.len(),
{
    if s.len() == 0 {
        -1
    } else if s.last() == c {
        s.len() - 1
    } else {
        last_of(s.drop_last(), c)
    }
}

/// What `last_of` means, position by position.
pub proof fn lemma_last_of(s: Seq<char>, c: char)
    ensures
        -1 <= last_of(s, c) < s.len(),
        last_of(s, c) >= 0 ==> s[last_of(s, c)] == c,
        forall|j: int| last_of(s, c) < j < s.len() ==> s[j] != c,
    decreases s.len(),
{
    if s.len() > 0 && s.last() != c {
        lemma_last_of(s.drop_last(), c);
        assert forall|j: int| last_of(s, c) < j < s.len() implies s[j] != c by {
            if j < s.len() - 1 {
                assert(s[j] == s.drop_last()[j]);
            }
        }
    }
}

/// The position just after the last `c` of `v`, or 0 where there is none.
pub fn after_last(v: &Vec<char>, c: char) -> (i: usize)
    ensures
        i == last_of(v@, c) + 1,
        i <= v@.len(),
{
    let mut i: usize = v.len();
    assert(v@.take(i as int) =~= v@);
    while i > 0 && v[i - 1] != c
        invariant
            i <= v@.len(),
            last_of(v@.take(i as int), c) == last_of(v@, c),
        decreases i,
    {
        assert(v@.take(i as int).drop_last() =~= v@.take(i - 1));
        i = i - 1;
    }
    i
}

/// Trimming what two texts make together trims the second, and goes on into the
/// first only where the second is blank.
pub proof fn lemma_trim_end_concat(a: Seq<char>, b: Seq<char>)
    ensures
        trim_end(b).len() == 0 ==> trim_end(a + b) == trim_end(a),
        trim_end(b).len() > 0 ==> trim_end(a + b) == a + trim_end(b),
    decreases b.len(),
{
    if b.len() == 0 {
        assert(a + b =~= a);
    } else {
        assert((a + b).last() == b.last());
        assert((a + b).drop_last() =~= a + b.drop_last());
        if is_white_space(b.last()) {
            lemma_trim_end_concat(a, b.drop_last());
        }
    }
}

/// Trimmed text is a beginning of the text, and ends in no whitespace.
pub proof fn lemma_trim_end(s: Seq<char>)
    ensures
        trim_end(s).len() <= s.len(),
        trim_end(s) == s.take(trim_end(s).len() as int),
        trim_end(s).len() > 0 ==> !is_white_space(trim_end(s).last()),
        trim_end(trim_end(s)) == trim_end(s),
        forall|i: int| trim_end(s).len() <= i < s.len() ==> is_white_space(#[trigger] s[i]),
    decreases s.len(),
{
    if s.len() > 0 && is_white_space(s.last()) {
        lemma_trim_end(s.drop_last());
        assert(s.drop_last().take(trim_end(s).len() as int) =~= s.take(trim_end(s).len() as int));
        assert forall|i: int| trim_end(s).len() <= i < s.len() implies is_white_space(#[trigger] s[i]) by {
            if i < s.len() - 1 {
                assert(s.drop_last()[i] == s[i]);
            }
        }
    } else {
        assert(s.take(s.len() as int) =~= s);
    }
}

/// `s` without the white space at its end.
pub open spec fn trim_end(s: Seq<char>) -> Seq<char>
    decreases s.len(),
{
    if s.len() > 0 && is_white_space(s.last()) {
        trim_end(s.drop_last())
    } else {
        s
    }
}

/// `s` without the white space at its start.
pub open spec fn trim_start(s: Seq<char>) -> Seq<char>
    decreases s.len(),
{
    if s.len() > 0 && is_white_space(s[0]) {
        trim_start(s.skip(1))
    } else {
        s
    }
}

/// `s` without the white space at either end.
pub open spec fn trim(s: Seq<char>) -> Seq<char> {
    trim_end(trim_start(s))
}

/// How many of the first `to` characters of `v` are left when the white space
/// at their end is taken away.
pub fn trimmed_len(v: &Vec<char>, to: usize) -> (n: usize)
    requires
        to <= v@.len(),
    ensures
        n <= to,
        v@.take(n as int) == trim_end(v@.take(to as int)),
        n > 0 ==> !is_white_space(v@[n - 1]),
{
    let mut n: usize = to;
    while n > 0 && v[n - 1].is_whitespace()
        invariant
            n <= to <= v@.len(),
            trim_end(v@.take(n as int)) == trim_end(v@.take(to as int)),
        decreases n,
    {
        assert(v@.take(n as int).drop_last() =~= v@.take(n - 1));
        n = n - 1;
    }
    n
}

/// The first position of `v` at or after `from` that holds no white space.
pub fn skip_white(v: &Vec<char>, from: usize) -> (i: usize)
    requires
        from <= v@.len(),
    ensures
        from <= i <= v@.len(),
        v@.skip(i as int) == trim_start(v@.skip(from as int)),
        i < v@.len() ==> !is_white_space(v@[i as int]),
        forall|j: int| from <= j < i ==> is_white_space(#[trigger] v@[j]),
{
    let mut i: usize = from;
    while i < v.len() && v[i].is_whitespace()
        invariant
            from <= i <= v@.len(),
            trim_start(v@.skip(i as int)) == trim_start(v@.skip(from as int)),
            forall|j: int| from <= j < i ==> is_white_space(#[trigger] v@[j]),
        decreases v@.len() - i,
    {
        assert(v@.skip(i as int).skip(1) =~= v@.skip(i + 1));
        i = i + 1;
    }
    i
}

/// Removes the white space at the end of `s`.
pub fn trim_end_text(s: &str) -> (r: String)
    ensures
        r@ == trim_end(s@),
{
    let v = to_chars(s);
    let n = trimmed_len(&v, v.len());
    assert(v@.take(v@.len() as int) =~= v@);
    assert(v@.subrange(0, n as int) =~= v@.take(n as int));
    slice_text(&v, 0, n)
}

/// Removes the white space at both ends of `s`.
pub fn trim_text(s: &str) -> (r: String)
    ensures
        r@ == trim(s@),
{
    let v = to_chars(s);
    let i = skip_white(&v, 0);
    assert(v@.skip(0) =~= v@);
    let mut n: usize = v.len();
    while n > i && v[n - 1].is_whitespace()
        invariant
            i <= n <= v@.len(),
            trim_end(v@.subrange(i as int, n as int)) == trim_end(v@.skip(i as int)),
        decreases n,
    {
        assert(v@.subrange(i as int, n as int).drop_last() =~= v@.subrange(i as int, n - 1));
        n = n - 1;
    }
    slice_text(&v, i, n)
}

/// Whether `p` stands in `s` at position `i`.
pub open spec fn stands_at(s: Seq<char>, i: int, p: Seq<char>) -> bool {
    0 <= i && i + p.len() <= s.len() && s.subrange(i, i + p.len()) == p
}

/// Whether `s` begins with `p`.
pub open spec fn begins_with(s: Seq<char>, p: Seq<char>) -> bool {
    stands_at(s, 0, p)
}

/// What begins the rest of a text stands where the rest begins.
pub proof fn lemma_rest_begins_with(s: Seq<char>, i: int, p: Seq<char>)
    requires
        0 <= i <= s.len(),
    ensures
        begins_with(s.skip(i), p) == stands_at(s, i, p),
{
    if i + p.len() <= s.len() {
        assert(s.skip(i).subrange(0, p.len() as int) =~= s.subrange(i, i + p.len()));
    }
}

/// Whether `s` ends with `p`.
pub open spec fn ends_with(s: Seq<char>, p: Seq<char>) -> bool {
    stands_at(s, s.len() - p.len(), p)
}

/// Tells whether `p` stands in `v` at position `i`.
pub fn stands_here(v: &Vec<char>, i: usize, p: &Vec<char>) -> (r: bool)
    ensures
        r == stands_at(v@, i as int, p@),
{
    let n = v.len();
    if i > n || n - i < p.len() {
        return false;
    }
    let mut k: usize = 0;
    while k < p.len()
        invariant
            k <= p@.len(),
            n == v@.len(),
            i + p@.len() <= n,
            forall|j: int| 0 <= j < k ==> v@[i + j] == p@[j],
        decreases p@.len() - k,
    {
        if v[i + k] != p[k] {
            assert(v@.subrange(i as int, i + p@.len())[k as int] != p@[k as int]);
            return false;
        }
        k = k + 1;
    }
    assert(v@.subrange(i as int, i + p@.len()) =~= p@);
    true
}

/// Tells whether `s` begins with `p`.
pub fn text_begins_with(s: &str, p: &str) -> (r: bool)
    ensures
        r == begins_with(s@, p@),
{
    stands_here(&to_chars(s), 0, &to_chars(p))
}

/// Tells whether `s` ends with `p`.
pub fn text_ends_with(s: &str, p: &str) -> (r: bool)
    ensures
        r == ends_with(s@, p@),
{
    let v = to_chars(s);
    let q = to_chars(p);
    if v.len() < q.len() {
        false
    } else {
        stands_here(&v, v.len() - q.len(), &q)
    }
}

/// `s` with every occurrence of `from`, taken from left to right without
/// overlaps, written as `to`.
pub open spec fn replaced(s: Seq<char>, from: Seq<char>, to: Seq<char>) -> Seq<char>
    decreases s.len(),
{
    if from.len() == 0 || s.len() < from.len() {
        s
    } else if begins_with(s, from) {
        to + replaced(s.skip(from.len() as int), from, to)
    } else {
        seq![s[0]] + replaced(s.skip(1), from, to)
    }
}

/// Whether `p` stands anywhere in `s`.
pub open spec fn contains_text(s: Seq<char>, p: Seq<char>) -> bool {
    exists|i: int| #[trigger] stands_at(s, i, p)
}

/// Text in which `from` does not stand is left as it is.
pub proof fn lemma_replaced_absent(s: Seq<char>, from: Seq<char>, to: Seq<char>)
    requires
        !contains_text(s, from),
    ensures
        replaced(s, from, to) == s,
    decreases s.len(),
{
    if from.len() > 0 && s.len() >= from.len() {
        assert(!stands_at(s, 0, from));
        let t = s.skip(1);
        assert(!contains_text(t, from)) by {
            if contains_text(t, from) {
                let i = choose|i: int| #[trigger] stands_at(t, i, from);
                assert(s.subrange(i + 1, i + 1 + from.len()) =~= t.subrange(i, i + from.len()));
                assert(stands_at(s, i + 1, from));
            }
        }
        lemma_replaced_absent(t, from, to);
        assert(seq![s[0]] + t =~= s);
    }
}

/// Replaces every occurrence of `from` in `s` by `to`.
pub fn replace_text(s: &str, from: &str, to: &str) -> (r: String)
    requires
        from@.len() > 0,
    ensures
        r@ == replaced(s@, from@, to@),
{
    let v = to_chars(s);
    let p = to_chars(from);
    let n = v.len();
    let mut out = String::new();
    let mut i: usize = 0;
    assert(v@.skip(0) =~= v@);
    assert(out@ + replaced(v@.skip(0), p@, to@) =~= replaced(v@, p@, to@));
    while i < n
        invariant
            i <= n,
            n == v@.len(),
            p@.len() > 0,
            p@ == from@,
            out@ + replaced(v@.skip(i as int), p@, to@) == replaced(v@, p@, to@),
        decreases n - i,
    {
        let ghost rest = v@.skip(i as int);
        proof {
            if i + p@.len() <= n {
                assert(rest.subrange(0, p@.len() as int) =~= v@.subrange(i as int, i + p@.len()));
            }
        }
        let ghost before = out@;
        if stands_here(&v, i, &p) {
            out.append(to);
            i = i + p.len();
            assert(rest.skip(p@.len() as int) =~= v@.skip(i as int));
            assert(before + (to@ + replaced(v@.skip(i as int), p@, to@)) =~= (before + to@) + replaced(
                v@.skip(i as int),
                p@,
                to@,
            ));
        } else {
            out.push(v[i]);
            proof {
                let tail = replaced(v@.skip(i + 1), p@, to@);
                assert(rest.skip(1) =~= v@.skip(i + 1));
                if rest.len() < p@.len() {
                    assert(replaced(rest, p@, to@) == rest);
                    assert(tail == v@.skip(i + 1));
                    assert(before.push(v@[i as int]) + v@.skip(i + 1) =~= before + rest);
                } else {
                    assert(before.push(rest[0]) + tail =~= before + (seq![rest[0]] + tail));
                }
            }
            i = i + 1;
        }
    }
    assert(v@.skip(i as int) =~= Seq::<char>::empty());
    assert(out@ + Seq::<char>::empty() =~= out@);
    out
}

/// Tells whether `p` stands anywhere in `s`.
pub fn text_contains(s: &str, p: &str) -> (r: bool)
    ensures
        r == contains_text(s@, p@),
{
    let v = to_chars(s);
    let q = to_chars(p);
    let n = v.len();
    let mut i: usize = 0;
    loop
        invariant
            n == v@.len(),
            i <= n,
            v@ == s@,
            q@ == p@,
            forall|j: int| 0 <= j < i ==> !stands_at(v@, j, q@),
        decreases n - i,
    {
        if stands_here(&v, i, &q) {
            return true;
        }
        if i == n {
            assert forall|j: int| !stands_at(v@, j, q@) by {
                if j > n {
                } else if j >= 0 {
                    assert(j < i || j == i);
                }
            }
            return false;
        }
        i = i + 1;
    }
}

/// `s` without a carriage return at its end.
pub open spec fn without_cr(s: Seq<char>) -> Seq<char> {
    if s.len() > 0 && s.last() == '\r' {
        s.drop_last()
    } else {
        s
    }
}

/// The lines of `s`: each ends at a line feed, before which one carriage
/// return is dropped too; what follows the last line feed is a line unless it
/// is empty.
pub open spec fn lines(s: Seq<char>) -> Seq<Seq<char>>
    decreases s.len(),
{
    let n = first_of(s, '\n');
    if s.len() == 0 {
        Seq::empty()
    } else if n < 0 || n >= s.len() {
        seq![s]
    } else {
        seq![without_cr(s.take(n))] + lines(s.skip(n + 1))
    }
}

/// Splits `s` into its lines.
pub fn text_lines(s: &str) -> (r: Vec<String>)
    ensures
        texts(r@) == lines(s@),
{
    let v = to_chars(s);
    let n = v.len();
    let mut out: Vec<String> = Vec::new();
    let mut i: usize = 0;
    assert(v@.skip(0) =~= v@);
    assert(texts(out@) + lines(v@) =~= lines(v@));
    while i < n
        invariant
            i <= n,
            n == v@.len(),
            texts(out@) + lines(v@.skip(i as int)) == lines(v@),
        decreases n - i,
    {
        let ghost rest = v@.skip(i as int);
        let ghost before = texts(out@);
        let e = find_from(&v, i, '\n');
        if e == n {
            let line = slice_text(&v, i, n);
            assert(line@ =~= rest);
            out.push(line);
            assert(texts(out@) =~= before.push(rest));
            assert(before.push(rest) =~= before + seq![rest]);
            assert(v@.skip(n as int) =~= Seq::<char>::empty());
            assert(texts(out@) + lines(v@.skip(n as int)) =~= texts(out@));
            i = n;
        } else {
            let mut to: usize = e;
            if to > i && v[to - 1] == '\r' {
                to = to - 1;
            }
            let line = slice_text(&v, i, to);
            assert(rest.take(e - i) =~= v@.subrange(i as int, e as int));
            assert(line@ =~= without_cr(rest.take(e - i)));
            let ghost l = line@;
            out.push(line);
            assert(texts(out@) =~= before.push(l));
            assert(rest.skip(e - i + 1) =~= v@.skip(e + 1));
            assert(before.push(l) + lines(v@.skip(e + 1)) =~= before + (seq![l] + lines(v@.skip(e + 1))));
            i = e + 1;
        }
    }
    assert(v@.skip(i as int) =~= Seq::<char>::empty());
    assert(texts(out@) + Seq::<Seq<char>>::empty() =~= texts(out@));
    out
}

/// The parts one after the other, with `sep` between each two.
pub open spec fn joined(parts: Seq<Seq<char>>, sep: Seq<char>) -> Seq<char>
    decreases parts.len(),
{
    if parts.len() == 0 {
        Seq::empty()
    } else if parts.len() == 1 {
        parts[0]
    } else {
        joined(parts.drop_last(), sep) + sep + parts.last()
    }
}

/// Joined parts begin with the first.
pub proof fn lemma_joined_first(parts: Seq<Seq<char>>, sep: Seq<char>)
    requires
        parts.len() >= 2,
    ensures
        joined(parts, sep) == parts[0] + sep + joined(parts.skip(1), sep),
    decreases parts.len(),
{
    let init = parts.drop_last();
    let rest = parts.skip(1);
    if parts.len() > 2 {
        lemma_joined_first(init, sep);
        assert(init.skip(1) =~= rest.drop_last());
        assert(joined(parts, sep) =~= parts[0] + sep + joined(rest, sep));
    } else {
        assert(joined(init, sep) == parts[0]);
        assert(joined(rest, sep) == parts[1]);
    }
}

/// Joins the strings of a list with `sep` between each two.
pub fn join_texts(parts: &Vec<String>, sep: &str) -> (r: String)
    ensures
        r@ == joined(texts(parts@), sep@),
{
    let mut out = String::new();
    let mut i: usize = 0;
    let n = parts.len();
    let ghost all = texts(parts@);
    assert(all.take(0) =~= Seq::empty());
    while i < n
        invariant
            i <= n,
            n == parts@.len(),
            all == texts(parts@),
            out@ == joined(all.take(i as int), sep@),
        decreases n - i,
    {
        assert(all.take(i + 1).drop_last() =~= all.take(i as int));
        assert(all.take(i + 1).last() == parts@[i as int]@);
        if i > 0 {
            out.append(sep);
        }
        out.append(parts[i].as_str());
        if i == 0 {
            assert(out@ =~= parts@[0]@);
        }
        i = i + 1;
    }
    assert(all.take(n as int) =~= all);
    out
}

/// Text ends its first line at its first line feed, and the lines of what is
/// behind it follow; one carriage return before the line feed is no part of the
/// line. Text without a line feed is one line, unless it is empty.
pub proof fn law_lines_end_at_line_feeds(line: Seq<char>, rest: Seq<char>)
    requires
        !line.contains('\n'),
    ensures
        lines(line + "\n"@ + rest) == seq![without_cr(line)] + lines(rest),
        line.len() > 0 ==> lines(line) == seq![line],
        lines(Seq::<char>::empty()) == Seq::<Seq<char>>::empty(),
        without_cr(line.push('\r')) == line,
        line.len() == 0 || line.last() != '\r' ==> without_cr(line) == line,
{
    reveal_strlit("\n");
    let s = line + "\n"@ + rest;
    assert forall|j: int| 0 <= j < line.len() implies s[j] != '\n' by {
        assert(line.contains(line[j]));
    }
    lemma_first_of_is(s, '\n', line.len() as int);
    assert(s.take(line.len() as int) =~= line);
    assert(s.skip(line.len() as int + 1) =~= rest);
    lemma_first_of(line, '\n');
    assert(line.push('\r').drop_last() =~= line);
}

/// Joined lists are the two lists joined, with the separator between them: what
/// is joined keeps its order, and nothing is left out.
pub proof fn law_joined_lists(a: Seq<Seq<char>>, b: Seq<Seq<char>>, sep: Seq<char>)
    ensures
        a.len() > 0 && b.len() > 0 ==> joined(a + b, sep) == joined(a, sep) + sep + joined(b, sep),
        a.len() == 0 ==> joined(a, sep) == Seq::<char>::empty(),
        a.len() == 1 ==> joined(a, sep) == a[0],
    decreases b.len(),
{
    if a.len() > 0 && b.len() > 0 {
        assert((a + b).drop_last() =~= a + b.drop_last());
        assert((a + b).last() == b.last());
        if b.len() > 1 {
            law_joined_lists(a, b.drop_last(), sep);
            assert(joined(a + b, sep) =~= joined(a, sep) + sep + joined(b, sep));
        } else {
            assert(a + b.drop_last() =~= a);
        }
    }
}

/// Trimming takes away white space and nothing else, and as much of it as there
/// is: what is left is a stretch of the text that neither begins nor ends with
/// white space, and all that is left out is white.
pub proof fn law_trimming_takes_white_space(s: Seq<char>)
    ensures
        ({
            let n = trim_end(s).len() as int;
            &&& s == trim_end(s) + s.skip(n)
            &&& forall|i: int| n <= i < s.len() ==> is_white_space(#[trigger] s[i])
            &&& n > 0 ==> !is_white_space(s[n - 1])
        }),
        ({
            let n = s.len() - trim_start(s).len();
            &&& s == s.take(n) + trim_start(s)
            &&& forall|i: int| 0 <= i < n ==> is_white_space(#[trigger] s[i])
            &&& n < s.len() ==> !is_white_space(s[n])
        }),
        trim(s) == trim_end(trim_start(s)),
    decreases s.len(),
{
    lemma_trim_end(s);
    let n = trim_end(s).len() as int;
    assert(s =~= s.take(n) + s.skip(n));
    if n > 0 {
        assert(s.take(n).last() == s[n - 1]);
    }
    if s.len() > 0 && is_white_space(s[0]) {
        let t = s.skip(1);
        law_trimming_takes_white_space(t);
        let m = s.len() - trim_start(s).len();
        assert(trim_start(s) == trim_start(t));
        assert(t == t.take(m - 1) + trim_start(t));
        assert(s =~= s.take(m) + trim_start(s)) by {
            assert(s.skip(1) == t.take(m - 1) + trim_start(t));
            assert forall|i: int| 0 <= i < s.len() implies s[i] == (s.take(m) + trim_start(s))[i] by {
                if i >= m {
                    assert(s[i] == t[i - 1]);
                }
            }
        }
        assert forall|i: int| 0 <= i < m implies is_white_space(#[trigger] s[i]) by {
            if i > 0 {
                assert(s[i] == t[i - 1]);
            }
        }
        if m < s.len() {
            assert(s[m] == t[m - 1]);
        }
    } else {
        assert(s.take(0) + s =~= s);
    }
}

/// Where `from` stands in a text for the first time, it is replaced, what is
/// before it stays, and what is behind it is treated the same way.
pub proof fn law_replacing_goes_left_to_right(s: Seq<char>, from: Seq<char>, to: Seq<char>, i: int)
    requires
        from.len() > 0,
        stands_at(s, i, from),
        forall|j: int| 0 <= j < i ==> !#[trigger] stands_at(s, j, from),
    ensures
        replaced(s, from, to) == s.take(i) + to + replaced(s.skip(i + from.len()), from, to),
    decreases i,
{
    if i == 0 {
        assert(s.take(0) + to =~= to);
    } else {
        assert(!stands_at(s, 0, from));
        let t = s.skip(1);
        assert(t.subrange(i - 1, i - 1 + from.len()) =~= s.subrange(i, i + from.len()));
        assert forall|j: int| 0 <= j < i - 1 implies !#[trigger] stands_at(t, j, from) by {
            if stands_at(t, j, from) {
                assert(t.subrange(j, j + from.len()) =~= s.subrange(j + 1, j + 1 + from.len()));
                assert(stands_at(s, j + 1, from));
            }
        }
        law_replacing_goes_left_to_right(t, from, to, i - 1);
        assert(t.skip(i - 1 + from.len()) =~= s.skip(i + from.len()));
        let rest = replaced(s.skip(i + from.len()), from, to);
        assert(seq![s[0]] + (t.take(i - 1) + to + rest) =~= s.take(i) + to + rest);
    }
}

/// Lines one below the other, each ended by a line feed.
pub open spec fn as_lines(ls: Seq<Seq<char>>) -> Seq<char>
    decreases ls.len(),
{
    if ls.len() == 0 {
        Seq::empty()
    } else {
        as_lines(ls.drop_last()) + ls.last() + "\n"@
    }
}

/// One line stands below the others.
pub proof fn lemma_as_lines_more(ls: Seq<Seq<char>>, line: Seq<char>)
    ensures
        as_lines(ls.push(line)) == as_lines(ls) + line + "\n"@,
{
    assert(ls.push(line).drop_last() =~= ls);
}

/// Lines written one below the other read as those lines, and what is behind
/// them goes on below.
pub proof fn law_written_lines_read_back(ls: Seq<Seq<char>>, rest: Seq<char>)
    requires
        forall|i: int| 0 <= i < ls.len() ==> !(#[trigger] ls[i]).contains('\n'),
    ensures
        lines(as_lines(ls) + rest) == Seq::new(ls.len(), |i: int| without_cr(ls[i])) + lines(rest),
    decreases ls.len(),
{
    let read = Seq::new(ls.len(), |i: int| without_cr(ls[i]));
    if ls.len() == 0 {
        assert(as_lines(ls) + rest =~= rest);
        assert(read + lines(rest) =~= lines(rest));
    } else {
        let init = ls.drop_last();
        let below = ls.last() + "\n"@ + rest;
        assert forall|i: int| 0 <= i < init.len() implies !(#[trigger] init[i]).contains('\n') by {
            assert(init[i] == ls[i]);
        }
        law_written_lines_read_back(init, below);
        assert(as_lines(ls) + rest =~= as_lines(init) + below);
        assert(!ls[ls.len() - 1].contains('\n'));
        law_lines_end_at_line_feeds(ls.last(), rest);
        let before = Seq::new(init.len(), |i: int| without_cr(init[i]));
        assert(before + (seq![without_cr(ls.last())] + lines(rest)) =~= read + lines(rest));
    }
}

/// Joining with nothing between the parts puts one more right behind them.
pub proof fn lemma_joined_with_nothing(parts: Seq<Seq<char>>, part: Seq<char>)
    ensures
        joined(parts.push(part), ""@) == joined(parts, ""@) + part,
{
    reveal_strlit("");
    assert(parts.push(part).drop_last() =~= parts);
    if parts.len() == 0 {
        assert(joined(parts, ""@) + part =~= part);
    } else {
        assert(joined(parts, ""@) + ""@ =~= joined(parts, ""@));
    }
}

/// White space before text that begins with none is taken away.
pub proof fn lemma_trim_start_white(w: Seq<char>, s: Seq<char>)
    requires
        forall|i: int| 0 <= i < w.len() ==> is_white_space(#[trigger] w[i]),
        s.len() > 0 ==> !is_white_space(s[0]),
    ensures
        trim_start(w + s) == s,
    decreases w.len(),
{
    if w.len() == 0 {
        assert(w + s =~= s);
    } else {
        assert((w + s).skip(1) =~= w.skip(1) + s);
        lemma_trim_start_white(w.skip(1), s);
    }
}

} // verus!
