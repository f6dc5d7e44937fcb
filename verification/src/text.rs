//! Small text tools: characters, case, white space, pieces.

use vstd::prelude::*;
use vstd::string::*;

verus! {

/// `String::push` appends one character.
pub assume_specification[ String::push ](s: &mut String, c: char)
    ensures
        final(s)@ == old(s)@.push(c),
;

// ---- Characters -------------------------------------------------------------

/// A letter from A to Z as its small form; any other character as it is.
pub open spec fn lower(c: char) -> char {
    if 'A' <= c && c <= 'Z' {
        (c as u32 + 32) as char
    } else {
        c
    }
}

pub open spec fn lowered(s: Seq<char>) -> Seq<char> {
    s.map_values(|c: char| lower(c))
}

/// Unicode white space.
pub open spec fn is_space(c: char) -> bool {
    let n = c as u32;
    ||| 0x9 <= n <= 0xd
    ||| n == 0x20
    ||| n == 0x85
    ||| n == 0xa0
    ||| n == 0x1680
    ||| 0x2000 <= n <= 0x200a
    ||| n == 0x2028
    ||| n == 0x2029
    ||| n == 0x202f
    ||| n == 0x205f
    ||| n == 0x3000
}

/// A letter as its small form.
pub fn to_lower(c: char) -> (r: char)
    ensures
        r == lower(c),
{
    if 'A' <= c && c <= 'Z' {
        (c as u8 + 32) as char
    } else {
        c
    }
}

/// Is the character white space?
pub fn is_white(c: char) -> (r: bool)
    ensures
        r == is_space(c),
{
    let n: u32 = c as u32;
    (n >= 0x9 && n <= 0xd) || n == 0x20 || n == 0x85 || n == 0xa0 || n == 0x1680 || (n >= 0x2000 && n
        <= 0x200a) || n == 0x2028 || n == 0x2029 || n == 0x202f || n == 0x205f || n == 0x3000
}

// ---- Between strings and characters -----------------------------------------

/// The characters of a text.
pub fn characters(s: &str) -> (v: Vec<char>)
    ensures
        v@ == s@,
{
    let mut v: Vec<char> = Vec::new();
    for c in it: s.chars()
        invariant
            v@ == it.seq().take(it.index()),
    {
        v.push(c);
    }
    v
}

/// The characters from `a` up to `b` as a text.
pub fn text_of(v: &Vec<char>, a: usize, b: usize) -> (s: String)
    requires
        a <= b <= v@.len(),
    ensures
        s@ == v@.subrange(a as int, b as int),
{
    let mut s: String = String::new();
    let mut i: usize = a;
    while i < b
        invariant
            a <= i <= b <= v@.len(),
            s@ =~= v@.subrange(a as int, i as int),
        decreases b - i,
    {
        s.push(v[i]);
        i = i + 1;
    }
    s
}

/// A copy of some characters.
pub fn copy_of(v: &Vec<char>, a: usize, b: usize) -> (r: Vec<char>)
    requires
        a <= b <= v@.len(),
    ensures
        r@ == v@.subrange(a as int, b as int),
{
    let mut r: Vec<char> = Vec::new();
    let mut i: usize = a;
    while i < b
        invariant
            a <= i <= b <= v@.len(),
            r@ =~= v@.subrange(a as int, i as int),
        decreases b - i,
    {
        r.push(v[i]);
        i = i + 1;
    }
    r
}

/// A text with its letters as small forms.
pub fn lowercase(s: &str) -> (r: String)
    ensures
        r@ == lowered(s@),
{
    let v: Vec<char> = characters(s);
    let mut r: String = String::new();
    let mut i: usize = 0;
    while i < v.len()
        invariant
            v@ == s@,
            i <= v@.len(),
            r@ =~= lowered(s@).take(i as int),
        decreases v@.len() - i,
    {
        r.push(to_lower(v[i]));
        i = i + 1;
    }
    assert(lowered(s@).take(s@.len() as int) =~= lowered(s@));
    r
}

/// Are the characters those of the text?
pub fn is_text(v: &Vec<char>, t: &str) -> (r: bool)
    ensures
        r == (v@ == t@),
{
    let w: Vec<char> = characters(t);
    if v.len() != w.len() {
        return false;
    }
    let mut i: usize = 0;
    while i < v.len()
        invariant
            w@ == t@,
            v@.len() == w@.len(),
            i <= v@.len(),
            forall|k: int| 0 <= k < i ==> v@[k] == w@[k],
        decreases v@.len() - i,
    {
        if v[i] != w[i] {
            return false;
        }
        i = i + 1;
    }
    assert(v@ =~= t@);
    true
}

/// Are the characters those of the text, but for the case of letters?
pub fn is_text_in_any_case(v: &Vec<char>, t: &str) -> (r: bool)
    ensures
        r == (lowered(v@) == lowered(t@)),
{
    let w: Vec<char> = characters(t);
    if v.len() != w.len() {
        assert(lowered(v@).len() != lowered(t@).len());
        return false;
    }
    let mut i: usize = 0;
    while i < v.len()
        invariant
            w@ == t@,
            v@.len() == w@.len(),
            i <= v@.len(),
            forall|k: int| 0 <= k < i ==> lower(v@[k]) == lower(w@[k]),
        decreases v@.len() - i,
    {
        if to_lower(v[i]) != to_lower(w[i]) {
            assert(lowered(v@)[i as int] != lowered(t@)[i as int]);
            return false;
        }
        i = i + 1;
    }
    assert(lowered(v@) =~= lowered(t@));
    true
}

// ---- White space ------------------------------------------------------------

/// Without the white space in front.
pub open spec fn without_lead(s: Seq<char>) -> Seq<char>
    decreases s.len(),
{
    if s.len() > 0 && is_space(s[0]) {
        without_lead(s.drop_first())
    } else {
        s
    }
}

/// Without the white space behind.
pub open spec fn without_tail(s: Seq<char>) -> Seq<char>
    decreases s.len(),
{
    if s.len() > 0 && is_space(s.last()) {
        without_tail(s.drop_last())
    } else {
        s
    }
}

/// Without the white space around.
pub open spec fn trimmed(s: Seq<char>) -> Seq<char> {
    without_tail(without_lead(s))
}

/// The characters without the white space around.
pub fn trim(v: &Vec<char>) -> (r: Vec<char>)
    ensures
        r@ == trimmed(v@),
{
    let mut a: usize = 0;
    assert(v@.skip(0) =~= v@);
    while a < v.len() && is_white(v[a])
        invariant
            a <= v@.len(),
            without_lead(v@) == without_lead(v@.skip(a as int)),
        decreases v@.len() - a,
    {
        proof {
            let rest = v@.skip(a as int);
            assert(rest.drop_first() =~= v@.skip(a + 1));
        }
        a = a + 1;
    }
    let ghost middle = v@.skip(a as int);
    assert(without_lead(v@) == middle);
    let mut b: usize = v.len();
    assert(v@.subrange(a as int, b as int) =~= middle);
    while b > a && is_white(v[b - 1])
        invariant
            a <= b <= v@.len(),
            without_tail(middle) == without_tail(v@.subrange(a as int, b as int)),
        decreases b,
    {
        proof {
            let rest = v@.subrange(a as int, b as int);
            assert(rest.drop_last() =~= v@.subrange(a as int, b - 1));
        }
        b = b - 1;
    }
    copy_of(v, a, b)
}

// ---- Pieces -----------------------------------------------------------------

pub open spec fn texts(list: Seq<Vec<char>>) -> Seq<Seq<char>> {
    list.map_values(|v: Vec<char>| v@)
}

/// The pieces of a text between separators; one more than there are
/// separators.
pub open spec fn pieces(s: Seq<char>, sep: char) -> Seq<Seq<char>>
    decreases s.len(),
{
    if s.len() == 0 {
        seq![Seq::<char>::empty()]
    } else {
        let before = pieces(s.drop_last(), sep);
        if s.last() == sep {
            before.push(Seq::<char>::empty())
        } else {
            before.drop_last().push(before.last().push(s.last()))
        }
    }
}

/// The pieces of a text between separators.
pub fn split(v: &Vec<char>, sep: char) -> (list: Vec<Vec<char>>)
    ensures
        texts(list@) == pieces(v@, sep),
        list@.len() > 0,
{
    let mut done: Vec<Vec<char>> = Vec::new();
    let mut current: Vec<char> = Vec::new();
    let mut i: usize = 0;
    assert(v@.take(0) =~= Seq::<char>::empty());
    assert(texts(done@).push(current@) =~= pieces(v@.take(0), sep));
    while i < v.len()
        invariant
            i <= v@.len(),
            texts(done@).push(current@) == pieces(v@.take(i as int), sep),
        decreases v@.len() - i,
    {
        let c: char = v[i];
        let ghost before = texts(done@);
        let ghost was = current@;
        proof {
            assert(v@.take(i + 1).drop_last() =~= v@.take(i as int));
            assert(v@.take(i + 1).last() == c);
            assert(before.push(was).drop_last() =~= before);
        }
        if c == sep {
            done.push(current);
            proof {
                assert(texts(done@) =~= before.push(was));
            }
            current = Vec::new();
        } else {
            current.push(c);
        }
        i = i + 1;
        assert(texts(done@).push(current@) == pieces(v@.take(i as int), sep));
    }
    let ghost before = texts(done@);
    done.push(current);
    proof {
        assert(texts(done@) =~= before.push(current@));
        assert(v@.take(v@.len() as int) =~= v@);
    }
    done
}

/// The words of a text so far, and the word that is not finished.
pub open spec fn words_so_far(s: Seq<char>) -> (Seq<Seq<char>>, Seq<char>)
    decreases s.len(),
{
    if s.len() == 0 {
        (Seq::empty(), Seq::empty())
    } else {
        let (done, current) = words_so_far(s.drop_last());
        if !is_space(s.last()) {
            (done, current.push(s.last()))
        } else if current.len() > 0 {
            (done.push(current), Seq::empty())
        } else {
            (done, current)
        }
    }
}

/// The words of a text: what stands between white space, without empty ones.
pub open spec fn words(s: Seq<char>) -> Seq<Seq<char>> {
    let (done, current) = words_so_far(s);
    if current.len() > 0 {
        done.push(current)
    } else {
        done
    }
}

/// The words of a text.
pub fn split_words(v: &Vec<char>) -> (list: Vec<Vec<char>>)
    ensures
        texts(list@) == words(v@),
{
    let mut done: Vec<Vec<char>> = Vec::new();
    let mut current: Vec<char> = Vec::new();
    let mut i: usize = 0;
    assert(v@.take(0) =~= Seq::<char>::empty());
    assert(texts(done@) =~= Seq::empty());
    while i < v.len()
        invariant
            i <= v@.len(),
            (texts(done@), current@) == words_so_far(v@.take(i as int)),
        decreases v@.len() - i,
    {
        let c: char = v[i];
        let ghost before = texts(done@);
        let ghost was = current@;
        proof {
            assert(v@.take(i + 1).drop_last() =~= v@.take(i as int));
            assert(v@.take(i + 1).last() == c);
        }
        if !is_white(c) {
            current.push(c);
        } else if current.len() > 0 {
            done.push(current);
            proof {
                assert(texts(done@) =~= before.push(was));
            }
            current = Vec::new();
            assert(current@ =~= Seq::empty());
        }
        i = i + 1;
    }
    proof {
        assert(v@.take(v@.len() as int) =~= v@);
    }
    if current.len() > 0 {
        let ghost before = texts(done@);
        let ghost was = current@;
        done.push(current);
        proof {
            assert(texts(done@) =~= before.push(was));
        }
    }
    done
}

/// The text with every `%f` replaced.
pub open spec fn filled(s: Seq<char>, with: Seq<char>) -> Seq<char>
    decreases s.len(),
{
    if s.len() < 2 {
        s
    } else if s[0] == '%' && s[1] == 'f' {
        with + filled(s.skip(2), with)
    } else {
        seq![s[0]] + filled(s.skip(1), with)
    }
}

/// The text with every `%f` replaced.
pub fn fill_in(v: &Vec<char>, with: &str) -> (r: String)
    ensures
        r@ == filled(v@, with@),
{
    let mut r: String = String::new();
    let mut i: usize = 0;
    assert(v@.skip(0) =~= v@);
    assert(r@ + filled(v@, with@) =~= filled(v@, with@));
    while i < v.len()
        invariant
            i <= v@.len(),
            r@ + filled(v@.skip(i as int), with@) == filled(v@, with@),
        decreases v@.len() - i,
    {
        let ghost rest = v@.skip(i as int);
        if v.len() - i >= 2 && v[i] == '%' && v[i + 1] == 'f' {
            let ghost before = r@;
            proof {
                assert(rest.skip(2) =~= v@.skip(i + 2));
                assert(before + (with@ + filled(v@.skip(i + 2), with@)) =~= (before + with@) + filled(
                    v@.skip(i + 2),
                    with@,
                ));
            }
            r.append(with);
            i = i + 2;
        } else {
            let ghost before = r@;
            proof {
                if rest.len() < 2 {
                    assert(rest =~= seq![rest[0]]);
                    assert(v@.skip(i + 1) =~= Seq::empty());
                    assert(filled(rest, with@) =~= seq![rest[0]] + filled(v@.skip(i + 1), with@));
                } else {
                    assert(rest.skip(1) =~= v@.skip(i + 1));
                }
                assert(before + (seq![rest[0]] + filled(v@.skip(i + 1), with@)) =~= before.push(rest[0])
                    + filled(v@.skip(i + 1), with@));
            }
            r.push(v[i]);
            i = i + 1;
        }
    }
    proof {
        assert(v@.skip(i as int) =~= Seq::empty());
        assert(r@ + filled(Seq::<char>::empty(), with@) =~= r@);
    }
    r
}

// ---- Numbers ----------------------------------------------------------------

pub open spec fn digit(n: nat) -> char {
    ('0' as u32 + n) as char
}

/// A whole number in decimal digits.
pub open spec fn decimal(n: nat) -> Seq<char>
    decreases n,
{
    if n < 10 {
        seq![digit(n)]
    } else {
        decimal(n / 10).push(digit(n % 10))
    }
}

pub open spec fn zeros(n: nat) -> Seq<char> {
    Seq::new(n, |i: int| '0')
}

/// A whole number with zeros in front, at least `width` digits wide.
pub open spec fn padded(n: nat, width: nat) -> Seq<char> {
    if decimal(n).len() >= width {
        decimal(n)
    } else {
        zeros((width - decimal(n).len()) as nat) + decimal(n)
    }
}

fn to_digit(n: u8) -> (c: char)
    requires
        n < 10,
    ensures
        c == digit(n as nat),
{
    (48 + n) as char
}

/// A whole number in decimal digits.
pub fn decimal_text(n: u128) -> (s: String)
    ensures
        s@ == decimal(n as nat),
    decreases n,
{
    if n < 10 {
        let mut s: String = String::new();
        s.push(to_digit(n as u8));
        assert(s@ =~= seq![digit(n as nat)]);
        return s;
    }
    let mut s: String = decimal_text(n / 10);
    s.push(to_digit((n % 10) as u8));
    s
}

/// A whole number below 1000 with zeros in front, two or three digits wide.
pub fn padded_text(n: u64, three: bool) -> (s: String)
    requires
        n < 1000,
        !three ==> n < 100,
    ensures
        s@ == padded(
            n as nat,
            if three {
                3
            } else {
                2
            },
        ),
{
    proof {
        reveal_with_fuel(decimal, 4);
    }
    let mut s: String = String::new();
    if three {
        s.push(to_digit((n / 100) as u8));
    }
    s.push(to_digit(((n / 10) % 10) as u8));
    s.push(to_digit((n % 10) as u8));
    assert(s@ =~= padded(
        n as nat,
        if three {
            3
        } else {
            2
        },
    ));
    s
}

// ---- Laws -------------------------------------------------------------------

/// The pieces of a text with a separator between each two.
pub open spec fn joined(list: Seq<Seq<char>>, sep: char) -> Seq<char>
    decreases list.len(),
{
    if list.len() == 0 {
        Seq::empty()
    } else if list.len() == 1 {
        list[0]
    } else {
        joined(list.drop_last(), sep).push(sep) + list.last()
    }
}

/// A split text can be joined again, and no piece holds a separator.
pub proof fn law_pieces_join(s: Seq<char>, sep: char)
    ensures
        pieces(s, sep).len() >= 1,
        joined(pieces(s, sep), sep) == s,
        forall|i: int| 0 <= i < pieces(s, sep).len() ==> !(#[trigger] pieces(s, sep)[i]).contains(sep),
    decreases s.len(),
{
    reveal_with_fuel(joined, 2);
    if s.len() == 0 {
        assert(joined(pieces(s, sep), sep) =~= s);
    } else {
        let t = s.drop_last();
        law_pieces_join(t, sep);
        let before = pieces(t, sep);
        let now = pieces(s, sep);
        if s.last() == sep {
            assert(now.drop_last() =~= before);
            assert(joined(now, sep) =~= joined(before, sep).push(sep) + Seq::<char>::empty());
            assert(s =~= t.push(sep));
            assert(!Seq::<char>::empty().contains(sep));
        } else {
            let last = before.last().push(s.last());
            assert(now.last() == last);
            assert(now.drop_last() =~= before.drop_last());
            assert(s =~= t.push(s.last()));
            if before.len() == 1 {
                assert(now[0] == last);
                assert(joined(now, sep) =~= s);
            } else {
                assert(joined(now, sep) =~= joined(before.drop_last(), sep).push(sep) + last);
                assert(joined(now, sep) =~= joined(before, sep).push(s.last()));
            }
            assert(!last.contains(sep)) by {
                if last.contains(sep) {
                    let j = choose|j: int| 0 <= j < last.len() && last[j] == sep;
                    assert(before.last()[j] == sep);
                    assert(before[before.len() - 1].contains(sep));
                }
            }
        }
        assert forall|i: int| 0 <= i < now.len() implies !(#[trigger] now[i]).contains(sep) by {
            if i < now.len() - 1 {
                assert(now[i] == before[i]);
            }
        }
    }
}

/// The place of the trimmed text in the text.
pub open spec fn is_middle(s: Seq<char>, a: int, b: int) -> bool {
    &&& 0 <= a <= b <= s.len()
    &&& forall|i: int| 0 <= i < a ==> is_space(#[trigger] s[i])
    &&& forall|i: int| b <= i < s.len() ==> is_space(#[trigger] s[i])
    &&& a < b ==> !is_space(s[a]) && !is_space(s[b - 1])
}

proof fn lemma_without_lead(s: Seq<char>) -> (a: int)
    ensures
        0 <= a <= s.len(),
        without_lead(s) == s.skip(a),
        forall|i: int| 0 <= i < a ==> is_space(#[trigger] s[i]),
        a < s.len() ==> !is_space(s[a]),
    decreases s.len(),
{
    if s.len() > 0 && is_space(s[0]) {
        let b = lemma_without_lead(s.drop_first());
        assert(s.drop_first().skip(b) =~= s.skip(b + 1));
        assert forall|i: int| 0 <= i < b + 1 implies is_space(#[trigger] s[i]) by {
            if i > 0 {
                assert(s.drop_first()[i - 1] == s[i]);
            }
        }
        b + 1
    } else {
        assert(s.skip(0) =~= s);
        0
    }
}

proof fn lemma_without_tail(s: Seq<char>) -> (b: int)
    ensures
        0 <= b <= s.len(),
        without_tail(s) == s.take(b),
        forall|i: int| b <= i < s.len() ==> is_space(#[trigger] s[i]),
        b > 0 ==> !is_space(s[b - 1]),
    decreases s.len(),
{
    if s.len() > 0 && is_space(s.last()) {
        let b = lemma_without_tail(s.drop_last());
        assert(s.drop_last().take(b) =~= s.take(b));
        assert forall|i: int| b <= i < s.len() implies is_space(#[trigger] s[i]) by {
            if i < s.len() - 1 {
                assert(s.drop_last()[i] == s[i]);
            }
        }
        b
    } else {
        assert(s.take(s.len() as int) =~= s);
        s.len() as int
    }
}

/// Trimming takes away the white space around a text and nothing else: what is left is
/// the middle of it, which begins and ends with a visible character.
pub proof fn law_trimming_leaves_middle(s: Seq<char>)
    ensures
        exists|a: int, b: int| #[trigger] is_middle(s, a, b) && trimmed(s) == s.subrange(a, b),
{
    let a = lemma_without_lead(s);
    let t = s.skip(a);
    let k = lemma_without_tail(t);
    let b = a + k;
    assert(trimmed(s) =~= s.subrange(a, b));
    assert forall|i: int| b <= i < s.len() implies is_space(#[trigger] s[i]) by {
        assert(t[i - a] == s[i]);
    }
    if a < b {
        assert(t[k - 1] == s[b - 1]);
    }
    assert(is_middle(s, a, b));
}

/// The visible characters of a text.
pub open spec fn visible(s: Seq<char>) -> Seq<char> {
    s.filter(|c: char| !is_space(c))
}

proof fn lemma_words_so_far(s: Seq<char>)
    ensures
        ({
            let (done, current) = words_so_far(s);
            &&& done.flatten() + current == visible(s)
            &&& forall|i: int| 0 <= i < done.len() ==> (#[trigger] done[i]).len() > 0
            &&& forall|i: int, j: int| 0 <= i < done.len() && 0 <= j < done[i].len() ==> !is_space(#[trigger] done[i][j])
            &&& forall|j: int| 0 <= j < current.len() ==> !is_space(#[trigger] current[j])
        }),
    decreases s.len(),
{
    reveal(Seq::filter);
    let f = |c: char| !is_space(c);
    if s.len() == 0 {
        assert(Seq::<Seq<char>>::empty().flatten() =~= Seq::<char>::empty());
        assert(visible(s) =~= Seq::<char>::empty());
    } else {
        let t = s.drop_last();
        lemma_words_so_far(t);
        let (done, current) = words_so_far(t);
        let (now, rest) = words_so_far(s);
        assert(visible(s) =~= if f(s.last()) {
            visible(t).push(s.last())
        } else {
            visible(t)
        });
        if !is_space(s.last()) {
            assert(done.flatten() + current.push(s.last()) =~= (done.flatten() + current).push(s.last()));
        } else if current.len() > 0 {
            done.lemma_flatten_push(current);
            assert(now.flatten() + rest =~= done.flatten() + current);
        }
    }
}

/// The words of a text hold its visible characters, all of them in order, and nothing
/// else; no word is empty.
pub proof fn law_words_hold_visible_text(s: Seq<char>)
    ensures
        words(s).flatten() == visible(s),
        forall|i: int| 0 <= i < words(s).len() ==> (#[trigger] words(s)[i]).len() > 0,
        forall|i: int, j: int| 0 <= i < words(s).len() && 0 <= j < words(s)[i].len() ==> !is_space(#[trigger] words(s)[i][j]),
{
    lemma_words_so_far(s);
    let (done, current) = words_so_far(s);
    if current.len() > 0 {
        done.lemma_flatten_push(current);
        assert(words(s).flatten() =~= visible(s));
    } else {
        assert(done.flatten() + current =~= done.flatten());
    }
}

/// Filling in changes nothing of a text without a mark.
pub proof fn law_no_mark_nothing_filled(s: Seq<char>, with: Seq<char>)
    requires
        forall|i: int| 0 <= i < s.len() - 1 ==> !(#[trigger] s[i] == '%' && s[i + 1] == 'f'),
    ensures
        filled(s, with) == s,
    decreases s.len(),
{
    if s.len() >= 2 {
        assert(!(s[0] == '%' && s[1] == 'f')) by {
            let i: int = 0;
            assert(!(s[i] == '%' && s[i + 1] == 'f'));
        }
        let t = s.skip(1);
        assert forall|i: int| 0 <= i < t.len() - 1 implies !(#[trigger] t[i] == '%' && t[i + 1] == 'f') by {
            assert(s[i + 1] == t[i] && s[i + 1 + 1] == t[i + 1]);
        }
        law_no_mark_nothing_filled(t, with);
        assert(seq![s[0]] + t =~= s);
    }
}

/// A mark is replaced where it stands: the text before it stays, then comes what is filled
/// in, then what is behind it, filled in likewise.
pub proof fn law_mark_is_replaced(before: Seq<char>, behind: Seq<char>, with: Seq<char>)
    requires
        forall|i: int| 0 <= i < before.len() ==> #[trigger] before[i] != '%',
    ensures
        filled(before + seq!['%', 'f'] + behind, with) == before + with + filled(behind, with),
    decreases before.len(),
{
    let s = before + seq!['%', 'f'] + behind;
    if before.len() == 0 {
        assert(s[0] == '%' && s[1] == 'f');
        assert(s.skip(2) =~= behind);
        assert(before + with + filled(behind, with) =~= with + filled(behind, with));
    } else {
        let rest = before.skip(1);
        assert forall|i: int| 0 <= i < rest.len() implies #[trigger] rest[i] != '%' by {
            assert(before[i + 1] == rest[i]);
        }
        law_mark_is_replaced(rest, behind, with);
        assert(s[0] == before[0]);
        assert(s.skip(1) =~= rest + seq!['%', 'f'] + behind);
        assert(seq![s[0]] + (rest + with + filled(behind, with)) =~= before + with + filled(behind, with));
    }
}

} // verus!
