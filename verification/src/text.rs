//! Character-level text handling used by the request protocol: Unicode
//! white space, tokenising, trimming, decimal and hexadecimal numerals.

use vstd::prelude::*;

verus! {

/// The Unicode `White_Space` property (PropList.txt).
pub open spec fn is_white_space(c: char) -> bool {
    let u = c as u32;
    ||| 0x09 <= u <= 0x0d
    ||| u == 0x20
    ||| u == 0x85
    ||| u == 0xa0
    ||| u == 0x1680
    ||| 0x2000 <= u <= 0x200a
    ||| u == 0x2028
    ||| u == 0x2029
    ||| u == 0x202f
    ||| u == 0x205f
    ||| u == 0x3000
}

/// Whether `c` has the Unicode `White_Space` property.
pub fn is_whitespace(c: char) -> (r: bool)
    ensures
        r == is_white_space(c),
{
    let u = c as u32;
    (0x09 <= u && u <= 0x0d) || u == 0x20 || u == 0x85 || u == 0xa0 || u == 0x1680 || (0x2000
        <= u && u <= 0x200a) || u == 0x2028 || u == 0x2029 || u == 0x202f || u == 0x205f || u
        == 0x3000
}

/// How many characters `s` starts with before its first white space.
pub open spec fn word_end(s: Seq<char>) -> nat
    decreases s.len(),
{
    if s.len() == 0 || is_white_space(s[0]) {
        0
    } else {
        1 + word_end(s.drop_first())
    }
}

/// The maximal runs of non-white-space characters of `s`, in order: white
/// space in front is skipped, the first word runs up to the next white
/// space, and what follows that white space is split in turn.
pub open spec fn words(s: Seq<char>) -> Seq<Seq<char>>
    decreases s.len(),
{
    if s.len() == 0 {
        Seq::empty()
    } else if is_white_space(s[0]) {
        words(s.drop_first())
    } else if word_end(s) < s.len() {
        seq![s.take(word_end(s) as int)] + words(s.skip(word_end(s) + 1 as int))
    } else {
        seq![s]
    }
}

/// `s` holds no white space.
pub open spec fn no_white_space(s: Seq<char>) -> bool {
    forall|i: int| 0 <= i < s.len() ==> !is_white_space(#[trigger] s[i])
}

/// The first word of `s` ends at white space or at the end of `s`, and
/// where it fills all of `a` it goes on into what follows `a`.
proof fn lemma_word_end(a: Seq<char>, t: Seq<char>)
    ensures
        word_end(a) <= a.len(),
        no_white_space(a.take(word_end(a) as int)),
        word_end(a) < a.len() ==> is_white_space(a[word_end(a) as int]),
        word_end(a + t) == if word_end(a) < a.len() {
            word_end(a)
        } else {
            a.len() + word_end(t)
        },
    decreases a.len(),
{
    if a.len() > 0 && !is_white_space(a[0]) {
        let r = a.drop_first();
        lemma_word_end(r, t);
        assert((a + t).drop_first() =~= r + t);
        assert forall|i: int| 0 <= i < word_end(a) implies !is_white_space(
            #[trigger] a.take(word_end(a) as int)[i],
        ) by {
            if i > 0 {
                assert(a.take(word_end(a) as int)[i] == r.take(word_end(r) as int)[i - 1]);
            }
        }
    } else if a.len() == 0 {
        assert(a + t =~= t);
    }
}

/// A non-empty piece of text without white space is a single word.
pub proof fn lemma_words_single(w: Seq<char>)
    requires
        w.len() > 0,
        no_white_space(w),
    ensures
        words(w) == seq![w],
{
    lemma_word_end(w, Seq::empty());
    if word_end(w) < w.len() {
        assert(!is_white_space(w[word_end(w) as int]));
    }
}

/// White space separates words: the words around it are kept apart.
pub proof fn lemma_words_split(a: Seq<char>, c: char, b: Seq<char>)
    requires
        is_white_space(c),
    ensures
        words(a + seq![c] + b) == words(a) + words(b),
    decreases a.len(),
{
    let s = a + seq![c] + b;
    if a.len() == 0 {
        assert(s.drop_first() =~= b);
        assert(words(a) + words(b) =~= words(b));
    } else if is_white_space(a[0]) {
        assert(s.drop_first() =~= a.drop_first() + seq![c] + b);
        lemma_words_split(a.drop_first(), c, b);
    } else {
        lemma_word_end(a, seq![c] + b);
        assert(s =~= a + (seq![c] + b));
        let n = word_end(a);
        if n < a.len() {
            assert(s.take(n as int) =~= a.take(n as int));
            assert(s.skip(n + 1 as int) =~= a.skip(n + 1 as int) + seq![c] + b);
            lemma_words_split(a.skip(n + 1 as int), c, b);
            assert(seq![a.take(n as int)] + (words(a.skip(n + 1 as int)) + words(b)) =~= seq![
                a.take(n as int),
            ] + words(a.skip(n + 1 as int)) + words(b));
        } else {
            assert(word_end(seq![c] + b) == 0);
            assert(s.take(n as int) =~= a);
            assert(s.skip(n + 1 as int) =~= b);
        }
    }
}

/// Where white space stands just before position `k` of `t`, or `k` is 0,
/// the words of `t` are those before `k` and those from `k` on.
proof fn lemma_words_at_space(t: Seq<char>, k: int)
    requires
        0 <= k <= t.len(),
        k == 0 || is_white_space(t[k - 1]),
    ensures
        words(t) == words(t.take(k)) + words(t.skip(k)),
{
    if k == 0 {
        assert(t.skip(0) =~= t);
        assert(words(t.take(0)) + words(t) =~= words(t));
    } else {
        let p = t.take(k - 1);
        assert(t =~= p + seq![t[k - 1]] + t.skip(k));
        lemma_words_split(p, t[k - 1], t.skip(k));
        assert(t.take(k) =~= p + seq![t[k - 1]] + Seq::<char>::empty());
        lemma_words_split(p, t[k - 1], Seq::<char>::empty());
        assert(words(p) + words(Seq::<char>::empty()) =~= words(p));
    }
}

/// The words of a run without white space: itself, where it is not empty.
proof fn lemma_words_run(w: Seq<char>)
    requires
        no_white_space(w),
    ensures
        words(w) == (if w.len() > 0 {
            seq![w]
        } else {
            Seq::<Seq<char>>::empty()
        }),
{
    if w.len() > 0 {
        lemma_words_single(w);
    }
}

pub open spec fn views_of(v: Seq<Vec<char>>) -> Seq<Seq<char>> {
    v.map_values(|t: Vec<char>| t@)
}

/// Splits `s` at white space, dropping empty pieces.
pub fn split_whitespace(s: &[char]) -> (r: Vec<Vec<char>>)
    ensures
        views_of(r@) == words(s@),
{
    let mut done: Vec<Vec<char>> = Vec::new();
    let mut cur: Vec<char> = Vec::new();
    let mut i: usize = 0;
    while i < s.len()
        invariant
            i <= s.len(),
            cur@.len() <= i,
            s@.subrange(i - cur@.len(), i as int) == cur@,
            no_white_space(cur@),
            i == cur@.len() || is_white_space(s@[i - cur@.len() - 1]),
            words(s@.take(i - cur@.len())) == views_of(done@),
        decreases s.len() - i,
    {
        let c = s[i];
        let ghost k = i - cur@.len();
        let ghost cv = cur@;
        if is_whitespace(c) {
            proof {
                let t = s@.take(i + 1);
                lemma_words_at_space(t, k);
                assert(t.take(k) =~= s@.take(k));
                assert(t.skip(k) =~= cv + seq![c] + Seq::<char>::empty());
                lemma_words_split(cv, c, Seq::<char>::empty());
                lemma_words_run(cv);
                assert(words(cv) + words(Seq::<char>::empty()) =~= words(cv));
            }
            let ghost d = done@;
            if cur.len() > 0 {
                let w = cur;
                done.push(w);
                assert(views_of(done@) =~= views_of(d).push(w@));
                cur = Vec::new();
            } else {
                assert(views_of(d) + Seq::<Seq<char>>::empty() =~= views_of(d));
            }
            assert(words(s@.take(i + 1)) == views_of(done@)) by {
                assert(views_of(d) + words(cv + seq![c] + Seq::<char>::empty()) =~= views_of(
                    done@,
                ));
            }
        } else {
            cur.push(c);
            assert(s@.subrange(k, i + 1) =~= cv.push(c));
        }
        i += 1;
    }
    proof {
        let k = s@.len() - cur@.len();
        lemma_words_at_space(s@, k);
        assert(s@.take(s@.len() as int) =~= s@);
        assert(s@.skip(k) =~= cur@);
        lemma_words_run(cur@);
    }
    let ghost d = done@;
    if cur.len() > 0 {
        done.push(cur);
        assert(views_of(done@) =~= views_of(d).push(cur@));
    } else {
        assert(views_of(d) + Seq::<Seq<char>>::empty() =~= views_of(d));
    }
    done
}


/// `s` without its leading white space.
pub open spec fn trim_start(s: Seq<char>) -> Seq<char>
    decreases s.len(),
{
    if s.len() > 0 && is_white_space(s[0]) {
        trim_start(s.drop_first())
    } else {
        s
    }
}

/// `s` without its trailing white space.
pub open spec fn trim_end(s: Seq<char>) -> Seq<char>
    decreases s.len(),
{
    if s.len() > 0 && is_white_space(s.last()) {
        trim_end(s.drop_last())
    } else {
        s
    }
}

/// `s` without leading and trailing white space.
pub open spec fn trim(s: Seq<char>) -> Seq<char> {
    trim_end(trim_start(s))
}

/// Text that starts and ends with visible characters is its own trim.
pub proof fn lemma_trim_plain(s: Seq<char>)
    requires
        s.len() > 0,
        !is_white_space(s[0]),
        !is_white_space(s.last()),
    ensures
        trim(s) == s,
{
}

/// A line feed after text that starts and ends with visible characters is
/// trimmed away, and nothing else is.
pub proof fn lemma_trim_line(s: Seq<char>)
    requires
        s.len() > 0,
        !is_white_space(s[0]),
        !is_white_space(s.last()),
    ensures
        trim(s + seq!['\n']) == s,
{
    let t = s + seq!['\n'];
    assert(t[0] == s[0]);
    assert(trim_start(t) == t);
    assert(t.drop_last() =~= s);
    assert(trim_end(t) == trim_end(s));
}

/// Copies `s[from..to]` into a new vector.
pub fn copy_range(s: &[char], from: usize, to: usize) -> (r: Vec<char>)
    requires
        from <= to <= s@.len(),
    ensures
        r@ == s@.subrange(from as int, to as int),
{
    let mut r: Vec<char> = Vec::new();
    let mut k = from;
    while k < to
        invariant
            from <= k <= to <= s@.len(),
            r@ == s@.subrange(from as int, k as int),
        decreases to - k,
    {
        r.push(s[k]);
        assert(r@ =~= s@.subrange(from as int, k + 1));
        k += 1;
    }
    r
}

/// Removes leading and trailing white space.
pub fn trim_whitespace(s: &[char]) -> (r: Vec<char>)
    ensures
        r@ == trim(s@),
{
    let mut i: usize = 0;
    assert(s@.skip(0) =~= s@);
    while i < s.len() && is_whitespace(s[i])
        invariant
            i <= s.len(),
            trim_start(s@) == trim_start(s@.skip(i as int)),
        decreases s.len() - i,
    {
        assert(s@.skip(i as int).drop_first() =~= s@.skip(i + 1));
        i += 1;
    }
    assert(trim_start(s@) == s@.skip(i as int)) by {
        if i < s.len() {
            assert(s@.skip(i as int)[0] == s@[i as int]);
        }
    }
    let mut j: usize = s.len();
    while j > i && is_whitespace(s[j - 1])
        invariant
            i <= j <= s.len(),
            trim_start(s@) == s@.skip(i as int),
            trim(s@) == trim_end(s@.subrange(i as int, j as int)),
        decreases j,
    {
        assert(s@.subrange(i as int, j as int).drop_last() =~= s@.subrange(i as int, j - 1));
        j -= 1;
    }
    assert(s@.skip(i as int) =~= s@.subrange(i as int, s.len() as int));
    copy_range(s, i, j)
}

pub open spec fn is_digit(c: char) -> bool {
    0x30 <= (c as u32) <= 0x39
}

pub open spec fn digit_value(c: char) -> nat {
    ((c as u32) - 0x30) as nat
}

pub open spec fn all_digits(s: Seq<char>) -> bool {
    forall|i: int| 0 <= i < s.len() ==> is_digit(#[trigger] s[i])
}

/// The number that the decimal digits `s` denote.
pub open spec fn decimal_value(s: Seq<char>) -> nat
    decreases s.len(),
{
    if s.len() == 0 {
        0
    } else {
        decimal_value(s.drop_last()) * 10 + digit_value(s.last())
    }
}

/// What reading `s` as an unsigned machine word gives: an optional `+`
/// sign, then one or more decimal digits, denoting at most `usize::MAX`.
pub open spec fn parse_usize_spec(s: Seq<char>) -> Option<usize> {
    let d = if s.len() > 0 && s[0] == '+' {
        s.drop_first()
    } else {
        s
    };
    if d.len() > 0 && all_digits(d) && decimal_value(d) <= usize::MAX {
        Some(decimal_value(d) as usize)
    } else {
        None
    }
}

proof fn lemma_decimal_value_prefix(s: Seq<char>, k: int)
    requires
        all_digits(s),
        0 <= k <= s.len(),
    ensures
        decimal_value(s.take(k)) <= decimal_value(s),
    decreases s.len(),
{
    if k < s.len() {
        assert(s.drop_last().take(k) =~= s.take(k));
        lemma_decimal_value_prefix(s.drop_last(), k);
    } else {
        assert(s.take(k) =~= s);
    }
}

/// Reads `s` as an unsigned machine word; `None` where it is not one.
pub fn parse_usize(s: &[char]) -> (r: Option<usize>)
    ensures
        r == parse_usize_spec(s@),
{
    let start: usize = if s.len() > 0 && s[0] == '+' {
        1
    } else {
        0
    };
    let ghost d = s@.skip(start as int);
    assert(d =~= (if s@.len() > 0 && s@[0] == '+' { s@.drop_first() } else { s@ }));
    if start >= s.len() {
        return None;
    }
    let mut acc: usize = 0;
    let mut i: usize = start;
    while i < s.len()
        invariant
            start <= i <= s.len(),
            d == s@.skip(start as int),
            d == (if s@.len() > 0 && s@[0] == '+' { s@.drop_first() } else { s@ }),
            d.len() > 0,
            all_digits(d.take(i - start)),
            acc == decimal_value(d.take(i - start)),
        decreases s.len() - i,
    {
        let c = s[i];
        let u = c as u32;
        assert(d.take(i + 1 - start).drop_last() =~= d.take(i - start));
        assert(d.take(i + 1 - start).last() == c);
        assert(d[i - start] == c);
        if u < 0x30 || u > 0x39 {
            assert(!is_digit(d[i - start]));
            return None;
        }
        let v = (u - 0x30) as usize;
        if acc > (usize::MAX - v) / 10 {
            proof {
                assert(acc * 10 + v > usize::MAX) by (nonlinear_arith)
                    requires
                        acc > (usize::MAX - v) / 10,
                        v <= 9,
                ;
                let k = i + 1 - start;
                assert(digit_value(c) == v);
                assert(decimal_value(d.take(k)) == acc * 10 + v);
                assert(all_digits(d.take(k)));
                if all_digits(d) {
                    lemma_decimal_value_prefix(d, k);
                }
            }
            return None;
        }
        assert(acc * 10 + v <= usize::MAX) by (nonlinear_arith)
            requires
                acc <= (usize::MAX - v) / 10,
                v <= 9,
        ;
        acc = acc * 10 + v;
        i += 1;
    }
    assert(d.take(s.len() - start) =~= d);
    Some(acc)
}

pub open spec fn digit_char(d: nat) -> char {
    (0x30 + d) as char
}

/// The decimal numeral of `n`, without leading zeros.
pub open spec fn decimal_text(n: nat) -> Seq<char>
    decreases n,
{
    if n < 10 {
        seq![digit_char(n)]
    } else {
        decimal_text(n / 10).push(digit_char(n % 10))
    }
}

/// A decimal numeral is a non-empty run of digits, without white space or
/// sign, that reads back as the number it was made from.
pub proof fn lemma_decimal_text(n: nat)
    ensures
        decimal_text(n).len() > 0,
        all_digits(decimal_text(n)),
        no_white_space(decimal_text(n)),
        decimal_value(decimal_text(n)) == n,
        decimal_text(n)[0] != '+',
    decreases n,
{
    let t = decimal_text(n);
    if n < 10 {
        assert(digit_char(n) as u32 == 0x30 + n);
        assert(t.drop_last() =~= Seq::<char>::empty());
        assert(t.last() == digit_char(n));
        assert(decimal_value(t) == decimal_value(t.drop_last()) * 10 + digit_value(t.last()));
    } else {
        lemma_decimal_text(n / 10);
        let d = digit_char(n % 10);
        assert(d as u32 == 0x30 + n % 10);
        assert(t.drop_last() =~= decimal_text(n / 10));
        assert(t[0] == decimal_text(n / 10)[0]);
        assert(t.last() == d);
        assert(digit_value(d) == n % 10);
        assert((n / 10) * 10 + n % 10 == n);
        assert(decimal_value(t) == decimal_value(t.drop_last()) * 10 + digit_value(t.last()));
        assert(decimal_value(t.drop_last()) == n / 10);
        assert forall|i: int| 0 <= i < t.len() implies is_digit(#[trigger] t[i]) by {
            if i < t.len() - 1 {
                assert(t[i] == decimal_text(n / 10)[i]);
            }
        }
    }
}

/// Reading a decimal numeral gives back the number.
pub proof fn lemma_parse_decimal(n: usize)
    ensures
        parse_usize_spec(decimal_text(n as nat)) == Some(n),
{
    lemma_decimal_text(n as nat);
}

/// The decimal numeral of `n`.
pub fn decimal(n: usize) -> (r: Vec<char>)
    ensures
        r@ == decimal_text(n as nat),
{
    let mut q = n;
    let mut acc: Vec<char> = Vec::new();
    loop
        invariant
            decimal_text(n as nat) == decimal_text(q as nat) + acc@,
        decreases q,
    {
        let d = (q % 10) as u32;
        let c = char_from_digit(d);
        let ghost old_acc = acc@;
        acc.insert(0, c);
        assert(acc@ =~= seq![c] + old_acc);
        if q < 10 {
            assert(decimal_text(q as nat) =~= seq![c]);
            assert(decimal_text(n as nat) =~= acc@);
            return acc;
        }
        assert(decimal_text(q as nat) == decimal_text((q / 10) as nat).push(c));
        assert(decimal_text((q / 10) as nat).push(c) + old_acc =~= decimal_text((q / 10) as nat)
            + acc@);
        q = q / 10;
    }
}

fn char_from_digit(d: u32) -> (c: char)
    requires
        d < 16,
    ensures
        c == hex_digit_char(d as nat),
{
    if d < 10 {
        let u: u8 = (0x30 + d) as u8;
        u as char
    } else {
        let u: u8 = (0x57 + d) as u8;
        u as char
    }
}

/// The lower-case hexadecimal digit of `d < 16`.
pub open spec fn hex_digit_char(d: nat) -> char {
    if d < 10 {
        (0x30 + d) as char
    } else {
        (0x57 + d) as char
    }
}

/// The `w` lowest hexadecimal digits of `n`, most significant first.
pub open spec fn hex_text(n: nat, w: nat) -> Seq<char>
    decreases w,
{
    if w == 0 {
        Seq::empty()
    } else {
        hex_text(n / 16, (w - 1) as nat).push(hex_digit_char(n % 16))
    }
}

/// The `w` lowest hexadecimal digits of `n`, zero-padded.
pub fn hex_digits(n: u64, w: usize) -> (r: Vec<char>)
    ensures
        r@ == hex_text(n as nat, w as nat),
{
    let mut q = n;
    let mut k: usize = w;
    let mut acc: Vec<char> = Vec::new();
    while k > 0
        invariant
            k <= w,
            hex_text(n as nat, w as nat) == hex_text(q as nat, k as nat) + acc@,
        decreases k,
    {
        let c = char_from_digit((q % 16) as u32);
        let ghost old_acc = acc@;
        acc.insert(0, c);
        assert(hex_text(q as nat, k as nat) == hex_text((q / 16) as nat, (k - 1) as nat).push(c));
        assert(hex_text((q / 16) as nat, (k - 1) as nat).push(c) + old_acc =~= hex_text(
            (q / 16) as nat,
            (k - 1) as nat,
        ) + acc@);
        q = q / 16;
        k -= 1;
    }
    assert(hex_text(q as nat, 0) + acc@ =~= acc@);
    acc
}

} // verus!
