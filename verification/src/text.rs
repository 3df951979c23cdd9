use vstd::prelude::*;

verus! {

/// Appends a character to a string: `String::push` adds `ch` after the last
/// character of `s` and changes nothing else.
pub assume_specification[ String::push ](s: &mut String, ch: char)
    ensures
        final(s)@ == old(s)@.push(ch),
;

/// The characters of `s`, in order.
pub fn chars_of(s: &str) -> (v: Vec<char>)
    ensures
        v@ == s@,
{
    let mut v: Vec<char> = Vec::new();
    for c in it: s.chars()
        invariant
            v@ == it.seq().take(it.index() as int),
    {
        v.push(c);
    }
    v
}

/// A string made of the characters of `v`.
pub fn string_of(v: &Vec<char>) -> (s: String)
    ensures
        s@ == v@,
{
    let mut s = String::new();
    let n = v.len();
    for i in 0..n
        invariant
            n == v.len(),
            s@ == v@.take(i as int),
    {
        s.push(v[i]);
        assert(v@.take(i + 1) =~= v@.take(i as int).push(v@[i as int]));
    }
    assert(v@.take(n as int) =~= v@);
    s
}

} // verus!

verus! {

/// Whether two character vectors hold the same characters.
pub fn same_chars(a: &Vec<char>, b: &Vec<char>) -> (r: bool)
    ensures
        r == (a@ == b@),
{
    if a.len() != b.len() {
        return false;
    }
    let n = a.len();
    for i in 0..n
        invariant
            n == a.len(),
            n == b.len(),
            forall|j: int| 0 <= j < i ==> a@[j] == b@[j],
    {
        if a[i] != b[i] {
            return false;
        }
    }
    assert(a@ =~= b@);
    true
}

/// Whether `a` holds exactly the characters of the literal `lit`.
pub fn is_text(a: &Vec<char>, lit: &str) -> (r: bool)
    ensures
        r == (a@ == lit@),
{
    let b = chars_of(lit);
    same_chars(a, &b)
}

/// Whether `prefix` is a prefix of `s`.
pub open spec fn has_prefix(s: Seq<char>, prefix: Seq<char>) -> bool {
    prefix.len() <= s.len() && s.take(prefix.len() as int) == prefix
}

/// Whether `a` starts with the characters of the literal `lit`.
pub fn starts_with_text(a: &Vec<char>, lit: &str) -> (r: bool)
    ensures
        r == has_prefix(a@, lit@),
{
    let b = chars_of(lit);
    if b.len() > a.len() {
        return false;
    }
    let n = b.len();
    for i in 0..n
        invariant
            n == b.len(),
            n <= a.len(),
            b@ == lit@,
            forall|j: int| 0 <= j < i ==> a@[j] == b@[j],
    {
        if a[i] != b[i] {
            assert(a@.take(n as int)[i as int] != b@[i as int]);
            return false;
        }
    }
    assert(a@.take(n as int) =~= b@);
    true
}

/// The characters of `s` from `start` up to, not including, `end`.
pub fn slice_chars(s: &Vec<char>, start: usize, end: usize) -> (r: Vec<char>)
    requires
        start <= end <= s.len(),
    ensures
        r@ == s@.subrange(start as int, end as int),
{
    let mut r: Vec<char> = Vec::new();
    let mut i = start;
    while i < end
        invariant
            start <= i <= end <= s.len(),
            r@ == s@.subrange(start as int, i as int),
        decreases end - i,
    {
        r.push(s[i]);
        i = i + 1;
        assert(r@ =~= s@.subrange(start as int, i as int));
    }
    r
}

/// White space as `char::is_whitespace` has it: the characters with the
/// Unicode `White_Space` property.
pub open spec fn is_space(c: char) -> bool {
    ||| c == '\t'
    ||| c == '\n'
    ||| c == '\u{0B}'
    ||| c == '\u{0C}'
    ||| c == '\r'
    ||| c == ' '
    ||| c == '\u{85}'
    ||| c == '\u{A0}'
    ||| c == '\u{1680}'
    ||| ('\u{2000}' <= c && c <= '\u{200A}')
    ||| c == '\u{2028}'
    ||| c == '\u{2029}'
    ||| c == '\u{202F}'
    ||| c == '\u{205F}'
    ||| c == '\u{3000}'
}

/// Whether `c` is white space.
pub fn space(c: char) -> (r: bool)
    ensures
        r == is_space(c),
{
    c == '\t' || c == '\n' || c == '\u{0B}' || c == '\u{0C}' || c == '\r' || c == ' '
        || c == '\u{85}' || c == '\u{A0}' || c == '\u{1680}' || ('\u{2000}' <= c && c
        <= '\u{200A}') || c == '\u{2028}' || c == '\u{2029}' || c == '\u{202F}' || c
        == '\u{205F}' || c == '\u{3000}'
}

/// `s` without its leading white space.
pub open spec fn trim_start(s: Seq<char>) -> Seq<char>
    decreases s.len(),
{
    if s.len() > 0 && is_space(s[0]) {
        trim_start(s.drop_first())
    } else {
        s
    }
}

/// `s` without its trailing white space.
pub open spec fn trim_end(s: Seq<char>) -> Seq<char>
    decreases s.len(),
{
    if s.len() > 0 && is_space(s.last()) {
        trim_end(s.drop_last())
    } else {
        s
    }
}

/// `s` without leading and trailing white space, as `str::trim` gives it.
pub open spec fn trim(s: Seq<char>) -> Seq<char> {
    trim_end(trim_start(s))
}

/// `s` without leading and trailing white space.
pub fn trim_chars(s: &Vec<char>) -> (r: Vec<char>)
    ensures
        r@ == trim(s@),
{
    let n = s.len();
    let mut i: usize = 0;
    assert(s@.skip(0) =~= s@);
    while i < n && space(s[i])
        invariant
            n == s.len(),
            i <= n,
            trim_start(s@) == trim_start(s@.skip(i as int)),
        decreases n - i,
    {
        assert(s@.skip(i as int).drop_first() =~= s@.skip(i + 1));
        i = i + 1;
    }
    assert(trim_start(s@) == s@.skip(i as int));
    assert(s@.skip(i as int) =~= s@.subrange(i as int, n as int));
    let mut j: usize = n;
    while j > i && space(s[j - 1])
        invariant
            n == s.len(),
            i <= j <= n,
            trim(s@) == trim_end(s@.subrange(i as int, j as int)),
        decreases j,
    {
        assert(s@.subrange(i as int, j as int).drop_last() =~= s@.subrange(i as int, j - 1));
        j = j - 1;
    }
    slice_chars(s, i, j)
}

} // verus!

verus! {

/// The characters of a vector of character vectors, vector by vector.
pub open spec fn texts(v: Seq<Vec<char>>) -> Seq<Seq<char>> {
    v.map_values(|x: Vec<char>| x@)
}

/// `line` without the carriage return of a `\r\n` line ending.
pub open spec fn strip_cr(line: Seq<char>) -> Seq<char> {
    if line.len() > 0 && line.last() == '\r' {
        line.drop_last()
    } else {
        line
    }
}

/// The lines of `s` after the lines `done` and the unfinished line `cur`.
pub open spec fn lines_from(s: Seq<char>, done: Seq<Seq<char>>, cur: Seq<char>) -> Seq<Seq<char>>
    decreases s.len(),
{
    if s.len() == 0 {
        if cur.len() > 0 {
            done.push(cur)
        } else {
            done
        }
    } else if s[0] == '\n' {
        lines_from(s.drop_first(), done.push(strip_cr(cur)), seq![])
    } else {
        lines_from(s.drop_first(), done, cur.push(s[0]))
    }
}

/// The lines of `s`, as `str::lines` yields them: split at each `\n`, a `\r`
/// right before it dropped, and no empty line after a final `\n`.
pub open spec fn lines(s: Seq<char>) -> Seq<Seq<char>> {
    lines_from(s, seq![], seq![])
}

/// The lines of `s`.
pub fn split_lines(s: &Vec<char>) -> (r: Vec<Vec<char>>)
    ensures
        texts(r@) == lines(s@),
{
    let mut done: Vec<Vec<char>> = Vec::new();
    let mut cur: Vec<char> = Vec::new();
    let n = s.len();
    assert(s@.skip(0) =~= s@);
    assert(texts(done@) =~= Seq::<Seq<char>>::empty());
    for i in 0..n
        invariant
            n == s.len(),
            lines(s@) == lines_from(s@.skip(i as int), texts(done@), cur@),
    {
        assert(s@.skip(i as int).drop_first() =~= s@.skip(i + 1));
        if s[i] == '\n' {
            let k = cur.len();
            let line = if k > 0 && cur[k - 1] == '\r' {
                slice_chars(&cur, 0, k - 1)
            } else {
                cur
            };
            assert(line@ =~= strip_cr(cur@));
            let ghost before = done@;
            done.push(line);
            assert(texts(done@) =~= texts(before).push(strip_cr(cur@)));
            cur = Vec::new();
        } else {
            cur.push(s[i]);
        }
    }
    assert(s@.skip(n as int) =~= Seq::<char>::empty());
    if cur.len() > 0 {
        let ghost before = done@;
        let ghost last = cur@;
        done.push(cur);
        assert(texts(done@) =~= texts(before).push(last));
    }
    done
}

} // verus!

verus! {

/// The pieces of `s` split at `sep` after the pieces `done` and the unfinished
/// piece `cur`, with at most `n` pieces in all.
pub open spec fn splitn_from(
    s: Seq<char>,
    n: nat,
    sep: char,
    done: Seq<Seq<char>>,
    cur: Seq<char>,
) -> Seq<Seq<char>>
    decreases s.len(),
{
    if s.len() == 0 {
        done.push(cur)
    } else if s[0] == sep && done.len() + 1 < n {
        splitn_from(s.drop_first(), n, sep, done.push(cur), seq![])
    } else {
        splitn_from(s.drop_first(), n, sep, done, cur.push(s[0]))
    }
}

/// `s` split at `sep` into at most `n` pieces, the last holding the rest, as
/// `str::splitn` yields them for `n >= 1`.
pub open spec fn splitn(s: Seq<char>, n: nat, sep: char) -> Seq<Seq<char>> {
    splitn_from(s, n, sep, seq![], seq![])
}

/// `s` split at `sep` into at most `n` pieces.
pub fn split_n(s: &Vec<char>, n: usize, sep: char) -> (r: Vec<Vec<char>>)
    requires
        n >= 1,
    ensures
        texts(r@) == splitn(s@, n as nat, sep),
{
    let mut done: Vec<Vec<char>> = Vec::new();
    let mut cur: Vec<char> = Vec::new();
    let len = s.len();
    assert(s@.skip(0) =~= s@);
    assert(texts(done@) =~= Seq::<Seq<char>>::empty());
    for i in 0..len
        invariant
            len == s.len(),
            n >= 1,
            splitn(s@, n as nat, sep) == splitn_from(s@.skip(i as int), n as nat, sep, texts(done@), cur@),
    {
        assert(s@.skip(i as int).drop_first() =~= s@.skip(i + 1));
        if s[i] == sep && done.len() < n - 1 {
            let ghost before = done@;
            let ghost piece = cur@;
            done.push(cur);
            assert(texts(done@) =~= texts(before).push(piece));
            cur = Vec::new();
        } else {
            cur.push(s[i]);
        }
    }
    assert(s@.skip(len as int) =~= Seq::<char>::empty());
    let ghost before = done@;
    let ghost last = cur@;
    done.push(cur);
    assert(texts(done@) =~= texts(before).push(last));
    done
}

/// The white-space separated words of `s` after the words `done` and the
/// unfinished word `cur`.
pub open spec fn words_from(s: Seq<char>, done: Seq<Seq<char>>, cur: Seq<char>) -> Seq<Seq<char>>
    decreases s.len(),
{
    if s.len() == 0 {
        if cur.len() > 0 {
            done.push(cur)
        } else {
            done
        }
    } else if is_space(s[0]) {
        words_from(s.drop_first(), if cur.len() > 0 { done.push(cur) } else { done }, seq![])
    } else {
        words_from(s.drop_first(), done, cur.push(s[0]))
    }
}

/// The words of `s` as `str::split_whitespace` yields them: the maximal runs
/// of characters that are not white space.
pub open spec fn words(s: Seq<char>) -> Seq<Seq<char>> {
    words_from(s, seq![], seq![])
}

/// The white-space separated words of `s`.
pub fn split_words(s: &Vec<char>) -> (r: Vec<Vec<char>>)
    ensures
        texts(r@) == words(s@),
{
    let mut done: Vec<Vec<char>> = Vec::new();
    let mut cur: Vec<char> = Vec::new();
    let len = s.len();
    assert(s@.skip(0) =~= s@);
    assert(texts(done@) =~= Seq::<Seq<char>>::empty());
    for i in 0..len
        invariant
            len == s.len(),
            words(s@) == words_from(s@.skip(i as int), texts(done@), cur@),
    {
        assert(s@.skip(i as int).drop_first() =~= s@.skip(i + 1));
        if space(s[i]) {
            if cur.len() > 0 {
                let ghost before = done@;
                let ghost piece = cur@;
                done.push(cur);
                assert(texts(done@) =~= texts(before).push(piece));
                cur = Vec::new();
            } else {
                assert(cur@ =~= Seq::<char>::empty());
            }
        } else {
            cur.push(s[i]);
        }
    }
    assert(s@.skip(len as int) =~= Seq::<char>::empty());
    if cur.len() > 0 {
        let ghost before = done@;
        let ghost last = cur@;
        done.push(cur);
        assert(texts(done@) =~= texts(before).push(last));
    }
    done
}

/// The pieces of `ws` joined with `sep` between each two of them.
pub open spec fn join(ws: Seq<Seq<char>>, sep: Seq<char>) -> Seq<char>
    decreases ws.len(),
{
    if ws.len() == 0 {
        seq![]
    } else if ws.len() == 1 {
        ws[0]
    } else {
        join(ws.drop_last(), sep) + sep + ws.last()
    }
}

/// The pieces of `ws` joined with `sep`.
pub fn join_with(ws: &Vec<Vec<char>>, sep: &Vec<char>) -> (r: Vec<char>)
    ensures
        r@ == join(texts(ws@), sep@),
{
    let mut r: Vec<char> = Vec::new();
    let n = ws.len();
    assert(texts(ws@).take(0) =~= Seq::<Seq<char>>::empty());
    for i in 0..n
        invariant
            n == ws.len(),
            r@ == join(texts(ws@).take(i as int), sep@),
    {
        let ghost before = r@;
        if i > 0 {
            append_chars(&mut r, sep);
        }
        append_chars(&mut r, &ws[i]);
        assert(texts(ws@).take(i + 1).drop_last() =~= texts(ws@).take(i as int));
        if i == 0 {
            assert(r@ =~= join(texts(ws@).take(i + 1), sep@));
        } else {
            assert(r@ =~= before + sep@ + ws@[i as int]@);
        }
    }
    assert(texts(ws@).take(n as int) =~= texts(ws@));
    r
}

/// Appends the characters of `w` to `r`.
pub fn append_chars(r: &mut Vec<char>, w: &Vec<char>)
    ensures
        final(r)@ == old(r)@ + w@,
{
    let m = w.len();
    for j in 0..m
        invariant
            m == w.len(),
            r@ == old(r)@ + w@.take(j as int),
    {
        r.push(w[j]);
        assert(w@.take(j + 1) =~= w@.take(j as int).push(w@[j as int]));
        assert(old(r)@ + w@.take(j + 1) =~= (old(r)@ + w@.take(j as int)).push(w@[j as int]));
    }
    assert(w@.take(m as int) =~= w@);
}

/// Whether `c` is an ASCII decimal digit.
pub open spec fn is_digit(c: char) -> bool {
    '0' <= c && c <= '9'
}

/// The number that the decimal digits `d` write.
pub open spec fn digits_value(d: Seq<char>) -> nat
    decreases d.len(),
{
    if d.len() == 0 {
        0
    } else {
        digits_value(d.drop_last()) * 10 + ((d.last() as int) - ('0' as int)) as nat
    }
}

/// The digits of an unsigned number: `s` without one leading `+`.
pub open spec fn unsigned_digits(s: Seq<char>) -> Seq<char> {
    if s.len() > 0 && s[0] == '+' {
        s.drop_first()
    } else {
        s
    }
}

/// What `str::parse` gives for an unsigned integer type whose largest value is
/// `max`: the value when `s` is one or more decimal digits, after an optional
/// `+`, that write a number no larger than `max`; otherwise an error.
pub open spec fn parse_unsigned(s: Seq<char>, max: nat) -> Option<nat> {
    let d = unsigned_digits(s);
    if d.len() > 0 && (forall|i: int| 0 <= i < d.len() ==> is_digit(#[trigger] d[i]))
        && digits_value(d) <= max {
        Some(digits_value(d))
    } else {
        None
    }
}

/// The smaller of `a` and `b`.
pub open spec fn min_nat(a: nat, b: nat) -> nat {
    if a <= b { a } else { b }
}

/// Parses an unsigned decimal number no larger than `max`.
pub fn parse_number(s: &Vec<char>, max: u32) -> (r: Option<u32>)
    ensures
        r matches Some(v) ==> parse_unsigned(s@, max as nat) == Some(v as nat),
        r is None ==> parse_unsigned(s@, max as nat) is None,
{
    let n = s.len();
    let start: usize = if n > 0 && s[0] == '+' { 1 } else { 0 };
    let ghost d = unsigned_digits(s@);
    assert(d =~= s@.skip(start as int));
    if start == n {
        return None;
    }
    let cap: u64 = max as u64 + 1;
    let mut acc: u64 = 0;
    let mut i = start;
    assert(d.take(0) =~= Seq::<char>::empty());
    while i < n
        invariant
            start <= i <= n,
            n == s.len(),
            d == s@.skip(start as int),
            d == unsigned_digits(s@),
            cap == max as u64 + 1,
            forall|k: int| 0 <= k < i - start ==> is_digit(#[trigger] d[k]),
            acc as nat == min_nat(digits_value(d.take(i - start)), cap as nat),
        decreases n - i,
    {
        let c = s[i];
        if !('0' <= c && c <= '9') {
            assert(d[i - start] == c);
            assert(!is_digit(d[i - start]));
            assert(!(forall|k: int| 0 <= k < d.len() ==> is_digit(#[trigger] d[k])));
            return None;
        }
        let digit: u64 = (c as u32 - '0' as u32) as u64;
        assert(d.take(i - start + 1).drop_last() =~= d.take(i - start));
        assert(d.take(i - start + 1).last() == c);
        let next = acc * 10 + digit;
        acc = if next < cap { next } else { cap };
        i = i + 1;
    }
    assert(d.take(n - start) =~= d);
    if acc < cap {
        Some(acc as u32)
    } else {
        None
    }
}

} // verus!

verus! {

/// The characters of each string of `v`.
pub open spec fn strings(v: Seq<String>) -> Seq<Seq<char>> {
    v.map_values(|x: String| x@)
}

/// Strings made of the character vectors of `v`.
pub fn strings_of(v: &Vec<Vec<char>>) -> (r: Vec<String>)
    ensures
        strings(r@) == texts(v@),
{
    let mut r: Vec<String> = Vec::new();
    let n = v.len();
    for i in 0..n
        invariant
            n == v.len(),
            strings(r@) == texts(v@).take(i as int),
    {
        let s = string_of(&v[i]);
        let ghost before = r@;
        r.push(s);
        assert(strings(r@) =~= strings(before).push(v@[i as int]@));
        assert(texts(v@).take(i + 1) =~= texts(v@).take(i as int).push(v@[i as int]@));
    }
    assert(texts(v@).take(n as int) =~= texts(v@));
    r
}

/// Whether `v` holds a vector with the characters `s`.
pub fn contains_text(v: &Vec<Vec<char>>, s: &Vec<char>) -> (r: bool)
    ensures
        r == texts(v@).contains(s@),
{
    let n = v.len();
    for i in 0..n
        invariant
            n == v.len(),
            forall|j: int| 0 <= j < i ==> texts(v@)[j] != s@,
    {
        if same_chars(&v[i], s) {
            assert(texts(v@)[i as int] == s@);
            return true;
        }
    }
    false
}

} // verus!

verus! {

/// The characters of each string of `v`.
pub fn chars_of_strings(v: &Vec<String>) -> (r: Vec<Vec<char>>)
    ensures
        texts(r@) == strings(v@),
{
    let mut r: Vec<Vec<char>> = Vec::new();
    let n = v.len();
    for i in 0..n
        invariant
            n == v.len(),
            texts(r@) == strings(v@).take(i as int),
    {
        let c = chars_of(v[i].as_str());
        let ghost before = r@;
        r.push(c);
        assert(texts(r@) =~= texts(before).push(v@[i as int]@));
        assert(strings(v@).take(i + 1) =~= strings(v@).take(i as int).push(v@[i as int]@));
    }
    assert(strings(v@).take(n as int) =~= strings(v@));
    r
}

} // verus!

verus! {

/// Splitting always gives at least one piece more than those already done.
pub proof fn lemma_splitn_nonempty(s: Seq<char>, n: nat, sep: char, done: Seq<Seq<char>>, cur: Seq<char>)
    ensures
        splitn_from(s, n, sep, done, cur).len() >= done.len() + 1,
    decreases s.len(),
{
    if s.len() > 0 {
        if s[0] == sep && done.len() + 1 < n {
            lemma_splitn_nonempty(s.drop_first(), n, sep, done.push(cur), seq![]);
        } else {
            lemma_splitn_nonempty(s.drop_first(), n, sep, done, cur.push(s[0]));
        }
    }
}

} // verus!

verus! {

/// `s` after its first line: what follows the first `\n`, or nothing where
/// `s` has none.
pub open spec fn after_first_line(s: Seq<char>) -> Seq<char>
    decreases s.len(),
{
    if s.len() == 0 {
        s
    } else if s[0] == '\n' {
        s.drop_first()
    } else {
        after_first_line(s.drop_first())
    }
}

/// The lines already done come first, whatever follows.
pub proof fn lemma_lines_from_done(s: Seq<char>, done: Seq<Seq<char>>, cur: Seq<char>)
    ensures
        lines_from(s, done, cur) == done + lines_from(s, seq![], cur),
    decreases s.len(),
{
    if s.len() == 0 {
        if cur.len() > 0 {
            assert(done.push(cur) =~= done + seq![].push(cur));
        } else {
            assert(done =~= done + Seq::<Seq<char>>::empty());
        }
    } else if s[0] == '\n' {
        lemma_lines_from_done(s.drop_first(), done.push(strip_cr(cur)), seq![]);
        lemma_lines_from_done(s.drop_first(), seq![].push(strip_cr(cur)), seq![]);
        assert(done.push(strip_cr(cur)) + lines_from(s.drop_first(), seq![], seq![]) =~= done + (seq![].push(
            strip_cr(cur),
        ) + lines_from(s.drop_first(), seq![], seq![])));
    } else {
        lemma_lines_from_done(s.drop_first(), done, cur.push(s[0]));
        lemma_lines_from_done(s.drop_first(), seq![], cur.push(s[0]));
    }
}

proof fn lemma_lines_after_first_from(s: Seq<char>, cur: Seq<char>)
    ensures
        ({
            let ls = lines_from(s, seq![], cur);
            (if ls.len() > 0 { ls.drop_first() } else { ls }) == lines(after_first_line(s))
        }),
    decreases s.len(),
{
    if s.len() == 0 {
        if cur.len() > 0 {
            assert(seq![].push(cur).drop_first() =~= Seq::<Seq<char>>::empty());
        }
    } else if s[0] == '\n' {
        lemma_lines_from_done(s.drop_first(), seq![].push(strip_cr(cur)), seq![]);
        assert((seq![].push(strip_cr(cur)) + lines(s.drop_first())).drop_first() =~= lines(
            s.drop_first(),
        ));
    } else {
        lemma_lines_after_first_from(s.drop_first(), cur.push(s[0]));
    }
}

/// The lines of `s` after its first are the lines of the text after its
/// first line.
pub proof fn lemma_lines_after_first(s: Seq<char>)
    ensures
        (if lines(s).len() > 0 { lines(s).drop_first() } else { lines(s) }) == lines(
            after_first_line(s),
        ),
{
    lemma_lines_after_first_from(s, seq![]);
}

} // verus!

verus! {

/// Whether `s` holds no line break.
pub open spec fn one_line(s: Seq<char>) -> bool {
    forall|i: int| 0 <= i < s.len() ==> #[trigger] s[i] != '\n'
}

/// Joining pieces with a separator, read from the front: the first piece,
/// the separator, and the rest joined.
pub proof fn lemma_join_front(l: Seq<char>, rest: Seq<Seq<char>>, sep: Seq<char>)
    requires
        rest.len() >= 1,
    ensures
        join(seq![l] + rest, sep) == l + sep + join(rest, sep),
    decreases rest.len(),
{
    let all = seq![l] + rest;
    assert(all.len() == rest.len() + 1);
    assert(join(seq![l], sep) == l);
    if rest.len() == 1 {
        assert(all.drop_last() =~= seq![l]);
        assert(all.last() == rest[0]);
        assert(join(rest, sep) == rest[0]);
    } else {
        assert(all.drop_last() =~= seq![l] + rest.drop_last());
        assert(all.last() == rest.last());
        lemma_join_front(l, rest.drop_last(), sep);
        assert(l + sep + join(rest.drop_last(), sep) + sep + rest.last() =~= l + sep + (join(
            rest.drop_last(),
            sep,
        ) + sep + rest.last()));
    }
}

/// Text without a line break only grows the unfinished line.
pub proof fn lemma_lines_from_one_line(l: Seq<char>, s: Seq<char>, done: Seq<Seq<char>>, cur: Seq<char>)
    requires
        one_line(l),
    ensures
        lines_from(l + s, done, cur) == lines_from(s, done, cur + l),
    decreases l.len(),
{
    if l.len() == 0 {
        assert(l + s =~= s);
        assert(cur + l =~= cur);
    } else {
        assert((l + s)[0] == l[0]);
        assert((l + s).drop_first() =~= l.drop_first() + s);
        assert(cur.push(l[0]) + l.drop_first() =~= cur + l);
        lemma_lines_from_one_line(l.drop_first(), s, done, cur.push(l[0]));
    }
}

/// The lines of one line followed by `\n` and more text.
pub proof fn lemma_lines_of_joined(l: Seq<char>, rest: Seq<Seq<char>>)
    requires
        one_line(l),
        rest.len() >= 1,
    ensures
        lines(join(seq![l] + rest, seq!['\n'])) == seq![strip_cr(l)] + lines(join(rest, seq!['\n'])),
{
    let tail = join(rest, seq!['\n']);
    lemma_join_front(l, rest, seq!['\n']);
    assert(l + seq!['\n'] + tail =~= l + (seq!['\n'] + tail));
    lemma_lines_from_one_line(l, seq!['\n'] + tail, seq![], seq![]);
    assert(Seq::<char>::empty() + l =~= l);
    assert((seq!['\n'] + tail)[0] == '\n');
    assert((seq!['\n'] + tail).drop_first() =~= tail);
    lemma_lines_from_done(tail, seq![strip_cr(l)], seq![]);
    assert(Seq::<Seq<char>>::empty().push(strip_cr(l)) =~= seq![strip_cr(l)]);
}

/// The lines of a single line: itself, unless it is empty.
pub proof fn lemma_lines_of_one_line(l: Seq<char>)
    requires
        one_line(l),
    ensures
        lines(l) == (if l.len() > 0 { seq![l] } else { Seq::<Seq<char>>::empty() }),
{
    lemma_lines_from_one_line(l, seq![], seq![], seq![]);
    assert(l + Seq::<char>::empty() =~= l);
    assert(Seq::<char>::empty() + l =~= l);
    assert(Seq::<Seq<char>>::empty().push(l) =~= seq![l]);
}

/// Every line holds no line break.
pub proof fn lemma_lines_are_one_line(s: Seq<char>, done: Seq<Seq<char>>, cur: Seq<char>)
    requires
        forall|i: int| 0 <= i < done.len() ==> one_line(#[trigger] done[i]),
        one_line(cur),
    ensures
        forall|i: int|
            0 <= i < lines_from(s, done, cur).len() ==> one_line(#[trigger] lines_from(s, done, cur)[i]),
    decreases s.len(),
{
    if s.len() > 0 {
        if s[0] == '\n' {
            let d = done.push(strip_cr(cur));
            assert forall|i: int| 0 <= i < d.len() implies one_line(#[trigger] d[i]) by {
                if i == done.len() {
                    assert forall|k: int| 0 <= k < strip_cr(cur).len() implies #[trigger] strip_cr(cur)[k]
                        != '\n' by {
                        assert(strip_cr(cur)[k] == cur[k]);
                    }
                }
            }
            lemma_lines_are_one_line(s.drop_first(), d, seq![]);
            assert(lines_from(s, done, cur) == lines_from(s.drop_first(), d, seq![]));
        } else {
            let c = cur.push(s[0]);
            assert forall|k: int| 0 <= k < c.len() implies #[trigger] c[k] != '\n' by {
                if k < cur.len() {
                    assert(c[k] == cur[k]);
                }
            }
            lemma_lines_are_one_line(s.drop_first(), done, c);
            assert(lines_from(s, done, cur) == lines_from(s.drop_first(), done, c));
        }
    } else {
        if cur.len() > 0 {
            assert forall|i: int| 0 <= i < done.push(cur).len() implies one_line(#[trigger] done.push(cur)[i]) by {
                if i < done.len() {
                    assert(done.push(cur)[i] == done[i]);
                }
            }
        }
    }
}

/// `s` followed by white space `c` trims to what `s` trims to.
pub proof fn lemma_trim_trailing_space(s: Seq<char>, c: char)
    requires
        is_space(c),
    ensures
        trim(s.push(c)) == trim(s),
    decreases s.len(),
{
    if s.len() == 0 {
        assert(s.push(c).drop_first() =~= Seq::<char>::empty());
        assert(s.push(c)[0] == c);
        assert(trim_start(s.push(c)) == trim_start(Seq::<char>::empty()));
    } else if is_space(s[0]) {
        assert(s.push(c)[0] == s[0]);
        assert(s.push(c).drop_first() =~= s.drop_first().push(c));
        lemma_trim_trailing_space(s.drop_first(), c);
    } else {
        assert(s.push(c)[0] == s[0]);
        assert(s.push(c).last() == c);
        assert(s.push(c).drop_last() =~= s);
    }
}

/// A character other than the separator at the end of the text only
/// lengthens the last piece.
pub proof fn lemma_splitn_push(s: Seq<char>, c: char, n: nat, sep: char, done: Seq<Seq<char>>, cur: Seq<char>)
    requires
        c != sep,
    ensures
        ({
            let r = splitn_from(s, n, sep, done, cur);
            &&& r.len() >= 1
            &&& splitn_from(s.push(c), n, sep, done, cur) == r.update(r.len() - 1, r.last().push(c))
        }),
    decreases s.len(),
{
    lemma_splitn_nonempty(s, n, sep, done, cur);
    if s.len() == 0 {
        let t = s.push(c);
        assert(t[0] == c);
        assert(t.drop_first() =~= Seq::<char>::empty());
        assert(splitn_from(t, n, sep, done, cur) == splitn_from(t.drop_first(), n, sep, done, cur.push(c)));
        assert(splitn_from(Seq::<char>::empty(), n, sep, done, cur.push(c)) == done.push(cur.push(c)));
        assert(done.push(cur.push(c)) =~= done.push(cur).update(done.len() as int, cur.push(c)));
    } else {
        let t = s.push(c);
        assert(t[0] == s[0]);
        assert(t.drop_first() =~= s.drop_first().push(c));
        if s[0] == sep && done.len() + 1 < n {
            lemma_splitn_push(s.drop_first(), c, n, sep, done.push(cur), seq![]);
            assert(splitn_from(t, n, sep, done, cur) == splitn_from(t.drop_first(), n, sep, done.push(cur), seq![]));
        } else {
            lemma_splitn_push(s.drop_first(), c, n, sep, done, cur.push(s[0]));
            assert(splitn_from(t, n, sep, done, cur) == splitn_from(t.drop_first(), n, sep, done, cur.push(s[0])));
        }
    }
}

} // verus!
