//! Splitting attribute text into words and fields.
//!
//! A shape is written as words separated by white space, each word holding
//! two fields separated by one comma. Nothing here reads a field as a number:
//! the fields are handed out as text.

use vstd::prelude::*;

verus! {

/// `String::push` appends one character to the end of the string.
pub assume_specification[ String::push ](s: &mut String, ch: char)
    ensures
        final(s)@ == old(s)@.push(ch),
;

/// White space: the characters that separate the words of a shape. These
/// are the code points with the Unicode property `White_Space`.
pub open spec fn is_space(c: char) -> bool {
    let u = c as u32;
    ||| 0x09 <= u <= 0x0D
    ||| u == 0x20
    ||| u == 0x85
    ||| u == 0xA0
    ||| u == 0x1680
    ||| 0x2000 <= u <= 0x200A
    ||| u == 0x2028
    ||| u == 0x2029
    ||| u == 0x202F
    ||| u == 0x205F
    ||| u == 0x3000
}

/// How many characters stand before the first white space of `s`.
pub open spec fn word_len(s: Seq<char>) -> nat
    decreases s.len(),
{
    if s.len() == 0 || is_space(s[0]) {
        0
    } else {
        1 + word_len(s.drop_first())
    }
}

/// The words of `s`: its longest runs of characters without white space,
/// in order.
pub open spec fn words(s: Seq<char>) -> Seq<Seq<char>>
    decreases s.len(),
{
    if s.len() == 0 {
        Seq::empty()
    } else if is_space(s[0]) {
        words(s.drop_first())
    } else {
        let n = word_len(s) as int;
        if n >= s.len() {
            seq![s]
        } else {
            seq![s.take(n)] + words(s.skip(n))
        }
    }
}

/// How many characters stand before the first comma of `s`.
pub open spec fn field_len(s: Seq<char>) -> nat
    decreases s.len(),
{
    if s.len() == 0 || s[0] == ',' {
        0
    } else {
        1 + field_len(s.drop_first())
    }
}

/// The fields of `s`: the stretches between its commas, in order. A text
/// with `k` commas has `k + 1` fields, some of them possibly empty.
pub open spec fn fields(s: Seq<char>) -> Seq<Seq<char>>
    decreases s.len(),
{
    let n = field_len(s) as int;
    if n >= s.len() {
        seq![s]
    } else {
        seq![s.take(n)] + fields(s.skip(n + 1))
    }
}

/// The two fields of a word that holds exactly one comma.
pub open spec fn pair_of(word: Seq<char>) -> Option<(Seq<char>, Seq<char>)> {
    let f = fields(word);
    if f.len() == 2 {
        Some((f[0], f[1]))
    } else {
        None
    }
}

/// The field pairs of those words that hold exactly one comma, in order.
pub open spec fn pairs(ws: Seq<Seq<char>>) -> Seq<(Seq<char>, Seq<char>)>
    decreases ws.len(),
{
    if ws.len() == 0 {
        Seq::empty()
    } else {
        match pair_of(ws.last()) {
            Some(p) => pairs(ws.drop_last()).push(p),
            None => pairs(ws.drop_last()),
        }
    }
}

/// The texts of a sequence of strings.
pub open spec fn texts(v: Seq<String>) -> Seq<Seq<char>> {
    v.map_values(|s: String| s@)
}

/// The texts of a sequence of string pairs.
pub open spec fn pair_texts(v: Seq<(String, String)>) -> Seq<(Seq<char>, Seq<char>)> {
    v.map_values(|p: (String, String)| (p.0@, p.1@))
}

/// The views of a sequence of character vectors.
pub open spec fn runs(v: Seq<Vec<char>>) -> Seq<Seq<char>> {
    v.map_values(|w: Vec<char>| w@)
}

/// Whether `c` is white space.
pub fn is_whitespace(c: char) -> (b: bool)
    ensures
        b == is_space(c),
{
    let u: u32 = c as u32;
    (0x09 <= u && u <= 0x0D) || u == 0x20 || u == 0x85 || u == 0xA0 || u == 0x1680 || (0x2000 <= u
        && u <= 0x200A) || u == 0x2028 || u == 0x2029 || u == 0x202F || u == 0x205F || u == 0x3000
}

/// The characters of `text`, in order.
pub fn chars_of(text: &str) -> (out: Vec<char>)
    ensures
        out@ == text@,
{
    let mut out: Vec<char> = Vec::new();
    for c in it: text.chars()
        invariant
            it.seq() == text@,
            out@ == it.seq().take(it.index() as int),
    {
        out.push(c);
        assert(it.seq().take(it.index() + 1).drop_last() =~= it.seq().take(it.index() as int));
    }
    assert(out@ =~= text@);
    out
}

/// The string made of `chars`, in order.
pub fn string_of(chars: &Vec<char>) -> (out: String)
    ensures
        out@ == chars@,
{
    let mut out = String::new();
    let mut i: usize = 0;
    while i < chars.len()
        invariant
            i <= chars.len(),
            out@ == chars@.take(i as int),
        decreases chars.len() - i,
    {
        out.push(chars[i]);
        assert(chars@.take(i + 1) =~= chars@.take(i as int).push(chars@[i as int]));
        i = i + 1;
    }
    assert(chars@.take(i as int) =~= chars@);
    out
}

/// The characters of `chars` from position `from` up to `to`.
fn copy_range(chars: &Vec<char>, from: usize, to: usize) -> (out: Vec<char>)
    requires
        from <= to <= chars.len(),
    ensures
        out@ == chars@.subrange(from as int, to as int),
{
    let mut out: Vec<char> = Vec::new();
    let mut i: usize = from;
    while i < to
        invariant
            from <= i <= to <= chars.len(),
            out@ == chars@.subrange(from as int, i as int),
        decreases to - i,
    {
        out.push(chars[i]);
        assert(chars@.subrange(from as int, i + 1) =~= chars@.subrange(from as int, i as int).push(
            chars@[i as int],
        ));
        i = i + 1;
    }
    out
}

/// The words of `chars`.
fn word_runs(chars: &Vec<char>) -> (out: Vec<Vec<char>>)
    ensures
        runs(out@) == words(chars@),
{
    let len: usize = chars.len();
    let mut out: Vec<Vec<char>> = Vec::new();
    let mut i: usize = 0;
    assert(chars@.skip(0) =~= chars@);
    assert(runs(out@) =~= Seq::<Seq<char>>::empty());
    while i < len
        invariant
            i <= len,
            len == chars.len(),
            words(chars@) == runs(out@) + words(chars@.skip(i as int)),
        decreases len - i,
    {
        let ghost tail = chars@.skip(i as int);
        assert(tail.drop_first() =~= chars@.skip(i + 1));
        if is_whitespace(chars[i]) {
            i = i + 1;
        } else {
            let mut j: usize = i + 1;
            while j < len && !is_whitespace(chars[j])
                invariant
                    i < j <= len,
                    len == chars.len(),
                    word_len(tail) == (j - i) + word_len(chars@.skip(j as int)),
                    tail == chars@.skip(i as int),
                decreases len - j,
            {
                assert(chars@.skip(j as int).drop_first() =~= chars@.skip(j + 1));
                j = j + 1;
            }
            assert(word_len(chars@.skip(j as int)) == 0);
            let word = copy_range(chars, i, j);
            proof {
                let n = (j - i) as int;
                assert(tail.take(n) =~= chars@.subrange(i as int, j as int));
                assert(tail.skip(n) =~= chars@.skip(j as int));
                if n >= tail.len() {
                    assert(tail =~= word@);
                    assert(words(chars@.skip(j as int)) =~= Seq::<Seq<char>>::empty());
                }
                assert(words(tail) =~= seq![word@] + words(chars@.skip(j as int)));
                assert(runs(out@.push(word)) =~= runs(out@) + seq![word@]);
                assert(runs(out@.push(word)) + words(chars@.skip(j as int)) =~= runs(out@) + (
                seq![word@] + words(chars@.skip(j as int))));
            }
            out.push(word);
            i = j;
        }
    }
    assert(words(chars@.skip(i as int)) =~= Seq::<Seq<char>>::empty());
    assert(runs(out@) + Seq::<Seq<char>>::empty() =~= runs(out@));
    out
}

/// The fields of `chars`.
fn field_runs(chars: &Vec<char>) -> (out: Vec<Vec<char>>)
    ensures
        runs(out@) == fields(chars@),
{
    let len: usize = chars.len();
    let mut out: Vec<Vec<char>> = Vec::new();
    let mut i: usize = 0;
    assert(chars@.skip(0) =~= chars@);
    assert(runs(out@) =~= Seq::<Seq<char>>::empty());
    loop
        invariant_except_break
            fields(chars@) == runs(out@) + fields(chars@.skip(i as int)),
        invariant
            i <= len,
            len == chars.len(),
        ensures
            runs(out@) == fields(chars@),
        decreases len - i,
    {
        let ghost tail = chars@.skip(i as int);
        let mut j: usize = i;
        while j < len && chars[j] != ','
            invariant
                i <= j <= len,
                len == chars.len(),
                field_len(tail) == (j - i) + field_len(chars@.skip(j as int)),
                tail == chars@.skip(i as int),
            decreases len - j,
        {
            assert(chars@.skip(j as int).drop_first() =~= chars@.skip(j + 1));
            j = j + 1;
        }
        assert(field_len(chars@.skip(j as int)) == 0);
        let field = copy_range(chars, i, j);
        proof {
            let n = (j - i) as int;
            assert(tail.take(n) =~= chars@.subrange(i as int, j as int));
            assert(runs(out@.push(field)) =~= runs(out@) + seq![field@]);
            if j < len {
                assert(tail.skip(n + 1) =~= chars@.skip(j + 1));
                assert(fields(tail) =~= seq![field@] + fields(chars@.skip(j + 1)));
                assert(runs(out@.push(field)) + fields(chars@.skip(j + 1)) =~= runs(out@) + (
                seq![field@] + fields(chars@.skip(j + 1))));
            } else {
                assert(tail =~= field@);
                assert(fields(tail) =~= seq![field@]);
                assert(fields(chars@) =~= runs(out@.push(field)));
            }
        }
        out.push(field);
        if j >= len {
            break ;
        }
        i = j + 1;
    }
    out
}

/// The strings of `parts`, one for one.
fn strings_of(parts: &Vec<Vec<char>>) -> (out: Vec<String>)
    ensures
        texts(out@) == runs(parts@),
{
    let mut out: Vec<String> = Vec::new();
    let mut i: usize = 0;
    while i < parts.len()
        invariant
            i <= parts.len(),
            out.len() == i,
            forall|k: int| 0 <= k < i ==> (#[trigger] out[k])@ == parts[k]@,
        decreases parts.len() - i,
    {
        out.push(string_of(&parts[i]));
        i = i + 1;
    }
    assert(texts(out@) =~= runs(parts@));
    out
}

/// Splits `text` into its words.
pub fn split_words(text: &str) -> (out: Vec<String>)
    ensures
        texts(out@) == words(text@),
{
    let chars = chars_of(text);
    let parts = word_runs(&chars);
    strings_of(&parts)
}

/// Splits `text` at its commas.
pub fn split_fields(text: &str) -> (out: Vec<String>)
    ensures
        texts(out@) == fields(text@),
{
    let chars = chars_of(text);
    let parts = field_runs(&chars);
    strings_of(&parts)
}

/// Splits a shape into the field pairs of its words. A word that does not
/// hold exactly one comma yields nothing.
pub fn split_pairs(shape: &str) -> (out: Vec<(String, String)>)
    ensures
        pair_texts(out@) == pairs(words(shape@)),
{
    let chars = chars_of(shape);
    let parts = word_runs(&chars);
    let mut out: Vec<(String, String)> = Vec::new();
    let mut i: usize = 0;
    assert(pair_texts(out@) =~= pairs(runs(parts@).take(0)));
    while i < parts.len()
        invariant
            i <= parts.len(),
            pair_texts(out@) == pairs(runs(parts@).take(i as int)),
        decreases parts.len() - i,
    {
        let split = field_runs(&parts[i]);
        proof {
            let upto = runs(parts@).take(i + 1);
            assert(upto.drop_last() =~= runs(parts@).take(i as int));
            assert(upto.last() == parts[i as int]@);
        }
        if split.len() == 2 {
            let left = string_of(&split[0]);
            let right = string_of(&split[1]);
            assert(pair_texts(out@.push((left, right))) =~= pair_texts(out@).push(
                (left@, right@),
            ));
            out.push((left, right));
        }
        i = i + 1;
    }
    assert(runs(parts@).take(i as int) =~= runs(parts@));
    out
}

/// The parts of a text put together again, with a comma between each two.
pub open spec fn joined(parts: Seq<Seq<char>>) -> Seq<char>
    decreases parts.len(),
{
    if parts.len() == 0 {
        Seq::empty()
    } else if parts.len() == 1 {
        parts[0]
    } else {
        parts[0] + seq![','] + joined(parts.drop_first())
    }
}

/// `word_len` stops at the first white space and never before.
pub proof fn lemma_word_len(s: Seq<char>)
    ensures
        word_len(s) <= s.len(),
        forall|k: int| 0 <= k < word_len(s) ==> !is_space(#[trigger] s[k]),
        word_len(s) < s.len() ==> is_space(s[word_len(s) as int]),
    decreases s.len(),
{
    if s.len() > 0 && !is_space(s[0]) {
        let rest = s.drop_first();
        lemma_word_len(rest);
        assert forall|k: int| 0 <= k < word_len(s) implies !is_space(#[trigger] s[k]) by {
            if k > 0 {
                assert(s[k] == rest[k - 1]);
            }
        }
        if word_len(s) < s.len() {
            assert(s[word_len(s) as int] == rest[word_len(rest) as int]);
        }
    }
}

/// No word is empty, and no word holds white space.
pub proof fn lemma_words_clean(s: Seq<char>, i: int)
    requires
        0 <= i < words(s).len(),
    ensures
        words(s)[i].len() > 0,
        forall|k: int| 0 <= k < words(s)[i].len() ==> !is_space(#[trigger] words(s)[i][k]),
    decreases s.len(),
{
    if is_space(s[0]) {
        lemma_words_clean(s.drop_first(), i);
    } else {
        lemma_word_len(s);
        let n = word_len(s) as int;
        if n < s.len() && i > 0 {
            lemma_words_clean(s.skip(n), i - 1);
        }
    }
}

/// `field_len` stops at the first comma and never before.
pub proof fn lemma_field_len(s: Seq<char>)
    ensures
        field_len(s) <= s.len(),
        forall|k: int| 0 <= k < field_len(s) ==> #[trigger] s[k] != ',',
        field_len(s) < s.len() ==> s[field_len(s) as int] == ',',
    decreases s.len(),
{
    if s.len() > 0 && s[0] != ',' {
        let rest = s.drop_first();
        lemma_field_len(rest);
        assert forall|k: int| 0 <= k < field_len(s) implies #[trigger] s[k] != ',' by {
            if k > 0 {
                assert(s[k] == rest[k - 1]);
            }
        }
        if field_len(s) < s.len() {
            assert(s[field_len(s) as int] == rest[field_len(rest) as int]);
        }
    }
}

/// There is always a first field, and no field holds a comma.
pub proof fn lemma_fields_clean(s: Seq<char>, i: int)
    requires
        0 <= i < fields(s).len(),
    ensures
        forall|k: int| 0 <= k < fields(s)[i].len() ==> #[trigger] fields(s)[i][k] != ',',
    decreases s.len(),
{
    lemma_field_len(s);
    let n = field_len(s) as int;
    if n < s.len() && i > 0 {
        lemma_fields_clean(s.skip(n + 1), i - 1);
    }
}

/// Putting the fields of a text together again gives the text.
pub proof fn lemma_fields_join(s: Seq<char>)
    ensures
        fields(s).len() >= 1,
        joined(fields(s)) == s,
    decreases s.len(),
{
    lemma_field_len(s);
    let n = field_len(s) as int;
    if n < s.len() {
        let rest = s.skip(n + 1);
        lemma_fields_join(rest);
        let all = fields(s);
        assert(all.drop_first() =~= fields(rest));
        assert(s.take(n) + seq![','] + rest =~= s);
    }
}

} // verus!
