use vstd::prelude::*;
use vstd::utf8::is_ascii_chars;

verus! {

/// The characters with the Unicode property `White_Space`.
pub open spec fn white_space(c: char) -> bool {
    ||| 0x09 <= c as u32 <= 0x0d
    ||| c as u32 == 0x20
    ||| c as u32 == 0x85
    ||| c as u32 == 0xa0
    ||| c as u32 == 0x1680
    ||| 0x2000 <= c as u32 <= 0x200a
    ||| c as u32 == 0x2028
    ||| c as u32 == 0x2029
    ||| c as u32 == 0x202f
    ||| c as u32 == 0x205f
    ||| c as u32 == 0x3000
}

/// `char::is_whitespace` holds of exactly the characters with the property `White_Space`.
pub assume_specification[ char::is_whitespace ](c: char) -> (r: bool)
    ensures
        r == white_space(c),
;

/// Whether a character is alphabetic or numeric in the sense of Unicode.
pub uninterp spec fn alphanumeric(c: char) -> bool;

/// The ASCII letters and digits.
pub open spec fn ascii_alphanumeric(c: char) -> bool {
    ||| 0x30 <= c as u32 <= 0x39
    ||| 0x41 <= c as u32 <= 0x5a
    ||| 0x61 <= c as u32 <= 0x7a
}

/// `char::is_alphanumeric` is a fixed property of the character; among the ASCII characters it
/// holds of the letters and the digits.
pub assume_specification[ char::is_alphanumeric ](c: char) -> (r: bool)
    ensures
        r == alphanumeric(c),
        (c as u32) < 0x80 ==> r == ascii_alphanumeric(c),
;

/// The lower-case form of a text in the sense of Unicode.
pub uninterp spec fn lowercase(s: Seq<char>) -> Seq<char>;

/// The lower-case form of an ASCII character.
pub open spec fn ascii_lower(c: char) -> char {
    if 0x41 <= c as u32 <= 0x5a {
        ((c as u32 + 0x20) as u32) as char
    } else {
        c
    }
}

/// `str::to_lowercase` depends on the text alone; an ASCII text is mapped letter by letter.
pub assume_specification[ str::to_lowercase ](s: &str) -> (r: String)
    ensures
        r@ == lowercase(s@),
        is_ascii_chars(s@) ==> r@ == ascii_lowered(s@),
;

/// The text without its leading white space.
pub open spec fn trimmed_start(s: Seq<char>) -> Seq<char>
    decreases s.len(),
{
    if s.len() > 0 && white_space(s[0]) {
        trimmed_start(s.skip(1))
    } else {
        s
    }
}

/// The text without its trailing white space.
pub open spec fn trimmed_end(s: Seq<char>) -> Seq<char>
    decreases s.len(),
{
    if s.len() > 0 && white_space(s.last()) {
        trimmed_end(s.drop_last())
    } else {
        s
    }
}

/// The text without the white space around it.
pub open spec fn trimmed(s: Seq<char>) -> Seq<char> {
    trimmed_end(trimmed_start(s))
}

/// `str::trim` takes the white space off both ends.
pub assume_specification[ str::trim ](s: &str) -> (r: &str)
    ensures
        r@ == trimmed(s@),
;

/// `String::push` appends one character.
pub assume_specification[ String::push ](s: &mut String, c: char)
    ensures
        final(s)@ == old(s)@.push(c),
;

/// `==` of two string slices (`<str as PartialEq>::eq`) compares their characters.
#[verifier::external_body]
pub(crate) fn same_text(a: &str, b: &str) -> (r: bool)
    ensures
        r == (a@ == b@),
{
    a == b
}

/// The contents of a list of strings.
pub open spec fn texts(v: Seq<String>) -> Seq<Seq<char>> {
    Seq::new(v.len(), |i: int| v[i]@)
}

/// Which characters hold a piece of text together when it is split.
#[derive(Clone, Copy, Debug, PartialEq, Eq, Structural)]
pub enum CharClass {
    /// Everything but white space.
    Word,
    /// Letters, digits, underscores and hyphens.
    Term,
}

impl CharClass {
    pub open spec fn holds(self, c: char) -> bool {
        match self {
            CharClass::Word => !white_space(c),
            CharClass::Term => alphanumeric(c) || c == '_' || c == '-',
        }
    }

    fn keeps(self, c: char) -> (r: bool)
        ensures
            r == self.holds(c),
    {
        match self {
            CharClass::Word => !c.is_whitespace(),
            CharClass::Term => c.is_alphanumeric() || c == '_' || c == '-',
        }
    }
}

/// The length of the longest prefix made of characters of the class.
pub open spec fn run_len(s: Seq<char>, class: CharClass) -> nat
    decreases s.len(),
{
    if s.len() > 0 && class.holds(s[0]) {
        1 + run_len(s.skip(1), class)
    } else {
        0
    }
}

/// A run is no longer than the text.
pub proof fn run_len_bound(s: Seq<char>, class: CharClass)
    ensures
        run_len(s, class) <= s.len(),
    decreases s.len(),
{
    if s.len() > 0 && class.holds(s[0]) {
        run_len_bound(s.skip(1), class);
    }
}

/// The maximal runs of characters of the class, in the order in which they occur.
pub open spec fn runs(s: Seq<char>, class: CharClass) -> Seq<Seq<char>>
    decreases s.len(),
{
    proof {
        run_len_bound(s, class);
    }
    let n = run_len(s, class);
    if s.len() == 0 {
        Seq::empty()
    } else if n == 0 {
        runs(s.skip(1), class)
    } else {
        seq![s.take(n as int)] + runs(s.skip(n as int), class)
    }
}

/// The words of a text: what stands between white space.
pub open spec fn words(s: Seq<char>) -> Seq<Seq<char>> {
    runs(s, CharClass::Word)
}

/// The pieces, with the separator between each two neighbours.
pub open spec fn joined(pieces: Seq<Seq<char>>, separator: Seq<char>) -> Seq<char>
    decreases pieces.len(),
{
    if pieces.len() == 0 {
        Seq::empty()
    } else if pieces.len() == 1 {
        pieces[0]
    } else {
        joined(pieces.drop_last(), separator) + separator + pieces.last()
    }
}

/// The form in which contents are compared: the words, one blank apart, in lower case.
pub open spec fn normalized(s: Seq<char>) -> Seq<char> {
    lowercase(joined(words(s), seq![' ']))
}

/// The characters of a text.
pub(crate) fn chars_of(s: &str) -> (r: Vec<char>)
    ensures
        r@ == s@,
{
    let mut out: Vec<char> = Vec::new();
    for c in it: s.chars()
        invariant
            it.seq() == s@,
            out@ == s@.take(it.index() as int),
    {
        out.push(c);
        assert(s@.take(it.index() + 1) =~= s@.take(it.index() as int).push(c));
    }
    assert(s@.take(s@.len() as int) =~= s@);
    out
}

/// The text made of `chars[from..to]`.
pub(crate) fn text_between(chars: &Vec<char>, from: usize, to: usize) -> (r: String)
    requires
        from <= to <= chars@.len(),
    ensures
        r@ == chars@.subrange(from as int, to as int),
{
    let mut out = String::new();
    let mut i: usize = from;
    while i < to
        invariant
            from <= i <= to <= chars@.len(),
            out@ == chars@.subrange(from as int, i as int),
        decreases to - i,
    {
        out.push(chars[i]);
        i += 1;
        assert(chars@.subrange(from as int, i as int) =~= chars@.subrange(
            from as int,
            i - 1,
        ).push(chars@[i - 1]));
    }
    out
}

/// Splits a text into its maximal runs of characters of the class.
pub(crate) fn split_runs(s: &str, class: CharClass) -> (r: Vec<String>)
    ensures
        texts(r@) == runs(s@, class),
{
    let chars = chars_of(s);
    let mut out: Vec<String> = Vec::new();
    let mut i: usize = 0;
    assert(chars@.skip(0) =~= chars@);
    while i < chars.len()
        invariant
            i <= chars@.len(),
            runs(chars@, class) == texts(out@) + runs(chars@.skip(i as int), class),
        decreases chars@.len() - i,
    {
        let ghost rest = chars@.skip(i as int);
        assert(rest[0] == chars@[i as int]);
        if class.keeps(chars[i]) {
            let mut j: usize = i;
            while j < chars.len() && class.keeps(chars[j])
                invariant
                    i <= j <= chars@.len(),
                    rest == chars@.skip(i as int),
                    run_len(rest, class) == (j - i) + run_len(chars@.skip(j as int), class),
                decreases chars@.len() - j,
            {
                assert(chars@.skip(j as int)[0] == chars@[j as int]);
                assert(chars@.skip(j as int).skip(1) =~= chars@.skip(j + 1));
                j += 1;
            }
            proof {
                if j < chars@.len() {
                    assert(chars@.skip(j as int)[0] == chars@[j as int]);
                }
                assert(run_len(rest, class) == j - i);
                assert(i < j) by {
                    assert(run_len(rest, class) > 0);
                }
            }
            let word = text_between(&chars, i, j);
            assert(rest.take(j - i) =~= word@);
            assert(rest.skip(j - i) =~= chars@.skip(j as int));
            let ghost earlier = texts(out@);
            out.push(word);
            assert(texts(out@) =~= earlier + seq![word@]);
            i = j;
            assert(runs(rest, class) == seq![word@] + runs(chars@.skip(i as int), class));
            assert(earlier + (seq![word@] + runs(chars@.skip(i as int), class)) =~= (earlier
                + seq![word@]) + runs(chars@.skip(i as int), class));
        } else {
            assert(rest.skip(1) =~= chars@.skip(i + 1));
            i += 1;
        }
    }
    assert(texts(out@) + Seq::<Seq<char>>::empty() =~= texts(out@));
    out
}

/// Joins the pieces with the separator between them.
pub(crate) fn join_texts(pieces: &Vec<String>, separator: &str) -> (r: String)
    ensures
        r@ == joined(texts(pieces@), separator@),
{
    let mut out = String::new();
    let mut i: usize = 0;
    while i < pieces.len()
        invariant
            i <= pieces@.len(),
            out@ == joined(texts(pieces@).take(i as int), separator@),
        decreases pieces@.len() - i,
    {
        let ghost all = texts(pieces@);
        assert(all.take(i + 1).drop_last() =~= all.take(i as int));
        if i > 0 {
            out.append(separator);
        }
        out.append(pieces[i].as_str());
        i += 1;
        assert(out@ == joined(all.take(i as int), separator@));
    }
    assert(texts(pieces@).take(pieces@.len() as int) =~= texts(pieces@));
    out
}

/// The text without the white space around it.
pub(crate) fn trim_text(s: &str) -> (r: String)
    ensures
        r@ == trimmed(s@),
{
    s.trim().to_owned()
}

/// Whether nothing but white space stands in the text.
pub(crate) fn is_blank(s: &str) -> (r: bool)
    ensures
        r == (trimmed(s@).len() == 0),
{
    s.trim().is_empty()
}

/// Whether the text is one of the listed ones.
pub(crate) fn contains_text(list: &Vec<String>, s: &str) -> (r: bool)
    ensures
        r == texts(list@).contains(s@),
{
    let mut i: usize = 0;
    while i < list.len()
        invariant
            i <= list@.len(),
            forall|j: int| 0 <= j < i ==> #[trigger] texts(list@)[j] != s@,
        decreases list@.len() - i,
    {
        if same_text(list[i].as_str(), s) {
            assert(texts(list@)[i as int] == s@);
            return true;
        }
        i += 1;
    }
    false
}

/// The listed values, each where it occurs first.
pub open spec fn first_occurrences(s: Seq<Seq<char>>) -> Seq<Seq<char>>
    decreases s.len(),
{
    if s.len() == 0 {
        s
    } else if s.drop_last().contains(s.last()) {
        first_occurrences(s.drop_last())
    } else {
        first_occurrences(s.drop_last()).push(s.last())
    }
}

/// Listing first occurrences keeps the set of values and drops every repetition.
pub proof fn first_occurrences_facts(s: Seq<Seq<char>>)
    ensures
        first_occurrences(s).no_duplicates(),
        first_occurrences(s).to_set() == s.to_set(),
        forall|v: Seq<char>| first_occurrences(s).contains(v) <==> s.contains(v),
    decreases s.len(),
{
    if s.len() > 0 {
        let init = s.drop_last();
        first_occurrences_facts(init);
        assert forall|v: Seq<char>| #[trigger] s.contains(v) <==> init.contains(v) || v
            == s.last() by {
            if s.contains(v) {
                let k = choose|k: int| 0 <= k < s.len() && s[k] == v;
                if k < s.len() - 1 {
                    assert(init[k] == v);
                }
            }
            if init.contains(v) {
                let k = choose|k: int| 0 <= k < init.len() && init[k] == v;
                assert(s[k] == v);
            }
            if v == s.last() {
                assert(s[s.len() - 1] == v);
            }
        }
        if !init.contains(s.last()) {
            let f = first_occurrences(init);
            assert forall|v: Seq<char>| f.push(s.last()).contains(v) <==> f.contains(v) || v
                == s.last() by {
                if f.contains(v) {
                    let k = choose|k: int| 0 <= k < f.len() && f[k] == v;
                    assert(f.push(s.last())[k] == v);
                }
                if v == s.last() {
                    assert(f.push(s.last())[f.len() as int] == v);
                }
            }
            assert(!f.contains(s.last()));
        }
        assert(first_occurrences(s).to_set() =~= s.to_set());
    } else {
        assert(first_occurrences(s).to_set() =~= s.to_set());
    }
}

/// What normalization does to an ASCII text: the words, one blank apart, letter by letter in
/// lower case.
pub open spec fn ascii_normalized(s: Seq<char>) -> Seq<char> {
    ascii_lowered(joined(words(s), seq![' ']))
}

/// The text with each ASCII letter in lower case.
pub open spec fn ascii_lowered(s: Seq<char>) -> Seq<char> {
    s.map_values(|c: char| ascii_lower(c))
}

/// The form in which contents are compared: white space collapsed, lower case.
pub fn normalize(s: &str) -> (r: String)
    ensures
        r@ == normalized(s@),
        is_ascii_chars(s@) ==> r@ == ascii_normalized(s@),
{
    let parts = split_runs(s, CharClass::Word);
    let line = join_texts(&parts, " ");
    proof {
        reveal_strlit(" ");
        assert(" "@ =~= seq![' ']);
        if is_ascii_chars(s@) {
            words_keep(s@, |c: char| '\0' <= c <= '\u{7f}');
            joined_keeps(words(s@), seq![' '], |c: char| '\0' <= c <= '\u{7f}');
            assert(is_ascii_chars(line@)) by {
                assert forall|i: int| 0 <= i < line@.len() implies '\0' <= #[trigger] line@[i]
                    <= '\u{7f}' by {
                    assert((|c: char| '\0' <= c <= '\u{7f}')(line@[i]));
                }
            }
        }
    }
    line.as_str().to_lowercase()
}

/// What holds of every character of a text holds of every character of its words.
proof fn words_keep(s: Seq<char>, p: spec_fn(char) -> bool)
    requires
        forall|i: int| 0 <= i < s.len() ==> p(#[trigger] s[i]),
    ensures
        forall|k: int, i: int|
            0 <= k < words(s).len() && 0 <= i < words(s)[k].len() ==> p(#[trigger] words(s)[k][i]),
    decreases s.len(),
{
    let n = run_len(s, CharClass::Word) as int;
    run_len_bound(s, CharClass::Word);
    if s.len() > 0 {
        if n == 0 {
            words_keep(s.skip(1), p);
            assert(words(s) == words(s.skip(1)));
        } else {
            words_keep(s.skip(n), p);
            assert forall|k: int, i: int|
                0 <= k < words(s).len() && 0 <= i < words(s)[k].len() implies p(
                #[trigger] words(s)[k][i],
            ) by {
                if k == 0 {
                    assert(words(s)[0][i] == s[i]);
                } else {
                    assert(words(s)[k] == words(s.skip(n))[k - 1]);
                }
            }
        }
    }
}

/// What holds of the pieces and of the separator holds of the joined text.
proof fn joined_keeps(pieces: Seq<Seq<char>>, separator: Seq<char>, p: spec_fn(char) -> bool)
    requires
        forall|k: int, i: int|
            0 <= k < pieces.len() && 0 <= i < pieces[k].len() ==> p(#[trigger] pieces[k][i]),
        forall|i: int| 0 <= i < separator.len() ==> p(#[trigger] separator[i]),
    ensures
        forall|i: int|
            0 <= i < joined(pieces, separator).len() ==> p(
                #[trigger] joined(pieces, separator)[i],
            ),
    decreases pieces.len(),
{
    if pieces.len() == 1 {
        assert forall|i: int| 0 <= i < joined(pieces, separator).len() implies p(
            #[trigger] joined(pieces, separator)[i],
        ) by {
            assert(joined(pieces, separator)[i] == pieces[0][i]);
        }
    } else if pieces.len() > 1 {
        assert forall|k: int, i: int|
            0 <= k < pieces.drop_last().len() && 0 <= i < pieces.drop_last()[k].len() implies p(
            #[trigger] pieces.drop_last()[k][i],
        ) by {
            assert(pieces.drop_last()[k][i] == pieces[k][i]);
        }
        joined_keeps(pieces.drop_last(), separator, p);
        let head = joined(pieces.drop_last(), separator);
        assert forall|i: int| 0 <= i < joined(pieces, separator).len() implies p(
            #[trigger] joined(pieces, separator)[i],
        ) by {
            if i >= head.len() + separator.len() {
                assert(joined(pieces, separator)[i] == pieces[pieces.len() - 1][i - head.len()
                    - separator.len()]);
            } else if i >= head.len() {
                assert(joined(pieces, separator)[i] == separator[i - head.len()]);
            } else {
                assert(joined(pieces, separator)[i] == head[i]);
            }
        }
    }
}

/// How a text is broken by white space does not matter: two texts with the same words have the
/// same normal form.
pub proof fn normalization_ignores_spacing(a: Seq<char>, b: Seq<char>)
    requires
        words(a) == words(b),
    ensures
        normalized(a) == normalized(b),
{
}

proof fn run_len_with_space(s: Seq<char>, c: char)
    requires
        white_space(c),
    ensures
        run_len(s.push(c), CharClass::Word) == run_len(s, CharClass::Word),
    decreases s.len(),
{
    let t = s.push(c);
    if s.len() > 0 {
        assert(t[0] == s[0]);
        if !white_space(s[0]) {
            assert(t.skip(1) =~= s.skip(1).push(c));
            run_len_with_space(s.skip(1), c);
        }
    } else {
        assert(t[0] == c);
    }
}

proof fn words_with_space(s: Seq<char>, c: char)
    requires
        white_space(c),
    ensures
        words(s.push(c)) == words(s),
    decreases s.len(),
{
    let t = s.push(c);
    let n = run_len(s, CharClass::Word) as int;
    run_len_bound(s, CharClass::Word);
    run_len_with_space(s, c);
    if s.len() == 0 {
        assert(t.skip(1) =~= Seq::<char>::empty());
        assert(words(t.skip(1)) =~= Seq::<Seq<char>>::empty());
    } else if n == 0 {
        assert(t.skip(1) =~= s.skip(1).push(c));
        words_with_space(s.skip(1), c);
    } else {
        assert(t.take(n) =~= s.take(n));
        assert(t.skip(n) =~= s.skip(n).push(c));
        words_with_space(s.skip(n), c);
    }
}

proof fn words_of_trimmed_end(s: Seq<char>)
    ensures
        words(trimmed_end(s)) == words(s),
    decreases s.len(),
{
    if s.len() > 0 && white_space(s.last()) {
        words_of_trimmed_end(s.drop_last());
        assert(s.drop_last().push(s.last()) =~= s);
        words_with_space(s.drop_last(), s.last());
    }
}

proof fn words_of_trimmed_start(s: Seq<char>)
    ensures
        words(trimmed_start(s)) == words(s),
    decreases s.len(),
{
    if s.len() > 0 && white_space(s[0]) {
        words_of_trimmed_start(s.skip(1));
        assert(run_len(s, CharClass::Word) == 0);
    }
}

/// White space around a text plays no part in its normal form.
pub proof fn normalization_ignores_padding(s: Seq<char>)
    ensures
        words(trimmed(s)) == words(s),
        normalized(trimmed(s)) == normalized(s),
{
    words_of_trimmed_start(s);
    words_of_trimmed_end(trimmed_start(s));
}

/// The characters of a run belong to its class.
proof fn run_chars(s: Seq<char>, class: CharClass)
    ensures
        forall|i: int| 0 <= i < run_len(s, class) ==> class.holds(#[trigger] s[i]),
    decreases s.len(),
{
    if s.len() > 0 && class.holds(s[0]) {
        run_chars(s.skip(1), class);
        run_len_bound(s, class);
        assert forall|i: int| 0 <= i < run_len(s, class) implies class.holds(#[trigger] s[i]) by {
            if i > 0 {
                assert(s[i] == s.skip(1)[i - 1]);
            }
        }
    }
}

/// A word: at least one character, none of them white space.
pub open spec fn is_word(w: Seq<char>) -> bool {
    w.len() > 0 && forall|i: int| 0 <= i < w.len() ==> !white_space(#[trigger] w[i])
}

/// The pieces into which `words` splits a text are words.
pub proof fn words_are_words(s: Seq<char>)
    ensures
        forall|k: int| 0 <= k < words(s).len() ==> is_word(#[trigger] words(s)[k]),
    decreases s.len(),
{
    let n = run_len(s, CharClass::Word) as int;
    run_len_bound(s, CharClass::Word);
    run_chars(s, CharClass::Word);
    if s.len() > 0 {
        if n == 0 {
            words_are_words(s.skip(1));
            assert(words(s) == words(s.skip(1)));
        } else {
            words_are_words(s.skip(n));
            assert forall|k: int| 0 <= k < words(s).len() implies is_word(
                #[trigger] words(s)[k],
            ) by {
                if k == 0 {
                    assert(words(s)[0] == s.take(n));
                    assert forall|i: int| 0 <= i < n implies !white_space(
                        #[trigger] s.take(n)[i],
                    ) by {
                        assert(CharClass::Word.holds(s[i]));
                    }
                } else {
                    assert(words(s)[k] == words(s.skip(n))[k - 1]);
                }
            }
        }
    }
}

proof fn run_len_before_space(a: Seq<char>, b: Seq<char>)
    ensures
        run_len(a.push(' ') + b, CharClass::Word) == run_len(a, CharClass::Word),
    decreases a.len(),
{
    let t = a.push(' ') + b;
    if a.len() > 0 {
        assert(t[0] == a[0]);
        assert(t.skip(1) =~= a.skip(1).push(' ') + b);
        run_len_before_space(a.skip(1), b);
    } else {
        assert(t[0] == ' ');
    }
}

/// A blank between two texts keeps their words apart.
pub proof fn words_around_space(a: Seq<char>, b: Seq<char>)
    ensures
        words(a.push(' ') + b) == words(a) + words(b),
    decreases a.len(),
{
    let t = a.push(' ') + b;
    let n = run_len(a, CharClass::Word) as int;
    run_len_bound(a, CharClass::Word);
    run_len_before_space(a, b);
    if a.len() == 0 {
        assert(t.skip(1) =~= b);
        assert(words(a) =~= Seq::<Seq<char>>::empty());
        assert(words(a) + words(b) =~= words(b));
    } else if n == 0 {
        assert(t.skip(1) =~= a.skip(1).push(' ') + b);
        words_around_space(a.skip(1), b);
    } else {
        assert(t.take(n) =~= a.take(n));
        assert(t.skip(n) =~= a.skip(n).push(' ') + b);
        words_around_space(a.skip(n), b);
        assert(words(t) =~= seq![a.take(n)] + (words(a.skip(n)) + words(b)));
        assert(seq![a.take(n)] + (words(a.skip(n)) + words(b)) =~= (seq![a.take(n)] + words(
            a.skip(n),
        )) + words(b));
    }
}

proof fn run_len_of_word(w: Seq<char>)
    requires
        forall|i: int| 0 <= i < w.len() ==> !white_space(#[trigger] w[i]),
    ensures
        run_len(w, CharClass::Word) == w.len(),
    decreases w.len(),
{
    if w.len() > 0 {
        assert forall|i: int| 0 <= i < w.skip(1).len() implies !white_space(
            #[trigger] w.skip(1)[i],
        ) by {
            assert(w.skip(1)[i] == w[i + 1]);
        }
        run_len_of_word(w.skip(1));
        assert(CharClass::Word.holds(w[0]));
    }
}

/// Words joined by single blanks split back into the same words.
pub proof fn words_of_joined(ws: Seq<Seq<char>>)
    requires
        forall|k: int| 0 <= k < ws.len() ==> is_word(#[trigger] ws[k]),
    ensures
        words(joined(ws, seq![' '])) == ws,
    decreases ws.len(),
{
    let line = joined(ws, seq![' ']);
    if ws.len() == 0 {
        assert(words(line) =~= ws);
    } else {
        let w = ws.last();
        assert(is_word(ws[ws.len() - 1]));
        run_len_of_word(w);
        assert(w.take(w.len() as int) =~= w);
        assert(words(w.skip(w.len() as int)) =~= Seq::<Seq<char>>::empty());
        assert(words(w) =~= seq![w]);
        if ws.len() == 1 {
            assert(ws =~= seq![w]);
        } else {
            let head = joined(ws.drop_last(), seq![' ']);
            assert forall|k: int| 0 <= k < ws.drop_last().len() implies is_word(
                #[trigger] ws.drop_last()[k],
            ) by {
                assert(ws.drop_last()[k] == ws[k]);
            }
            words_of_joined(ws.drop_last());
            assert(line =~= head.push(' ') + w);
            words_around_space(head, w);
            assert(ws =~= ws.drop_last() + seq![w]);
        }
    }
}

proof fn lower_facts(c: char)
    ensures
        white_space(ascii_lower(c)) == white_space(c),
        ascii_lower(ascii_lower(c)) == ascii_lower(c),
{
}

proof fn run_len_of_lowered(s: Seq<char>)
    ensures
        run_len(ascii_lowered(s), CharClass::Word) == run_len(s, CharClass::Word),
    decreases s.len(),
{
    if s.len() > 0 {
        lower_facts(s[0]);
        assert(ascii_lowered(s)[0] == ascii_lower(s[0]));
        assert(ascii_lowered(s).skip(1) =~= ascii_lowered(s.skip(1)));
        run_len_of_lowered(s.skip(1));
    }
}

spec fn each_lowered(ws: Seq<Seq<char>>) -> Seq<Seq<char>> {
    Seq::new(ws.len(), |k: int| ascii_lowered(ws[k]))
}

proof fn words_of_lowered(s: Seq<char>)
    ensures
        words(ascii_lowered(s)) == each_lowered(words(s)),
    decreases s.len(),
{
    let t = ascii_lowered(s);
    let n = run_len(s, CharClass::Word) as int;
    run_len_bound(s, CharClass::Word);
    run_len_of_lowered(s);
    if s.len() == 0 {
        assert(words(t) =~= each_lowered(words(s)));
    } else if n == 0 {
        assert(t.skip(1) =~= ascii_lowered(s.skip(1)));
        words_of_lowered(s.skip(1));
    } else {
        assert(t.take(n) =~= ascii_lowered(s.take(n)));
        assert(t.skip(n) =~= ascii_lowered(s.skip(n)));
        words_of_lowered(s.skip(n));
        assert(words(t) =~= each_lowered(words(s)));
    }
}

proof fn joined_of_lowered(ws: Seq<Seq<char>>)
    ensures
        joined(each_lowered(ws), seq![' ']) == ascii_lowered(joined(ws, seq![' '])),
    decreases ws.len(),
{
    if ws.len() == 0 {
        assert(joined(each_lowered(ws), seq![' ']) =~= ascii_lowered(joined(ws, seq![' '])));
    } else if ws.len() > 1 {
        joined_of_lowered(ws.drop_last());
        assert(each_lowered(ws).drop_last() =~= each_lowered(ws.drop_last()));
        assert(ascii_lowered(joined(ws, seq![' '])) =~= ascii_lowered(
            joined(ws.drop_last(), seq![' ']),
        ) + seq![' '] + ascii_lowered(ws.last()));
    }
}

/// A text whose only white space is single blanks between other characters.
pub open spec fn well_spaced(s: Seq<char>) -> bool {
    &&& s.len() > 0 ==> !white_space(s[0]) && !white_space(s.last())
    &&& forall|i: int| 0 <= i < s.len() && white_space(#[trigger] s[i]) ==> s[i] == ' '
    &&& forall|i: int, j: int|
        0 <= i < s.len() && j == i + 1 && j < s.len() && white_space(#[trigger] s[i])
            ==> !white_space(#[trigger] s[j])
}

/// Words joined by single blanks are well spaced; there is nothing without words.
pub proof fn joined_words_are_spaced(ws: Seq<Seq<char>>)
    requires
        forall|k: int| 0 <= k < ws.len() ==> is_word(#[trigger] ws[k]),
    ensures
        well_spaced(joined(ws, seq![' '])),
        joined(ws, seq![' ']).len() == 0 <==> ws.len() == 0,
    decreases ws.len(),
{
    if ws.len() > 0 {
        assert(is_word(ws[ws.len() - 1]));
        let w = ws.last();
        let line = joined(ws, seq![' ']);
        if ws.len() > 1 {
            let head = joined(ws.drop_last(), seq![' ']);
            assert forall|k: int| 0 <= k < ws.drop_last().len() implies is_word(
                #[trigger] ws.drop_last()[k],
            ) by {
                assert(ws.drop_last()[k] == ws[k]);
            }
            joined_words_are_spaced(ws.drop_last());
            let n = head.len() as int;
            assert(line =~= head + seq![' '] + w);
            assert forall|i: int| 0 <= i < line.len() implies #[trigger] line[i] == (if i < n {
                head[i]
            } else if i == n {
                ' '
            } else {
                w[i - n - 1]
            }) by {}
            assert(line[0] == head[0]);
            assert(line.last() == w[w.len() - 1]);
            assert forall|i: int, j: int|
                0 <= i < line.len() && j == i + 1 && j < line.len() && white_space(
                    #[trigger] line[i],
                ) implies !white_space(#[trigger] line[j]) by {
                if j < n {
                    assert(white_space(head[i]));
                    assert(!white_space(head[j]));
                } else if j == n {
                    assert(line[i] == head.last());
                } else {
                    assert(line[j] == w[j - n - 1]);
                }
            }
        }
    }
}

/// A text has no words exactly where it holds nothing but white space.
pub proof fn blank_texts_have_no_words(s: Seq<char>)
    ensures
        words(s).len() == 0 <==> forall|i: int| 0 <= i < s.len() ==> white_space(#[trigger] s[i]),
    decreases s.len(),
{
    let n = run_len(s, CharClass::Word) as int;
    run_len_bound(s, CharClass::Word);
    if s.len() > 0 {
        if n == 0 {
            let rest = s.skip(1);
            blank_texts_have_no_words(rest);
            assert(white_space(s[0]));
            if words(s).len() == 0 {
                assert forall|i: int| 0 <= i < s.len() implies white_space(#[trigger] s[i]) by {
                    if i > 0 {
                        assert(rest[i - 1] == s[i]);
                    }
                }
            } else {
                let k = choose|k: int| 0 <= k < rest.len() && !white_space(#[trigger] rest[k]);
                assert(s[k + 1] == rest[k]);
            }
        } else {
            assert(!white_space(s[0]));
        }
    }
}

/// The normal form of an ASCII text: its words in lower case, one blank apart and nothing around
/// them; nothing at all exactly where the text holds nothing but white space. It is ASCII too.
pub proof fn ascii_normal_form(s: Seq<char>)
    ensures
        well_spaced(ascii_normalized(s)),
        words(ascii_normalized(s)) == words(s).map_values(|w: Seq<char>| ascii_lowered(w)),
        ascii_normalized(s).len() == 0 <==> forall|i: int|
            0 <= i < s.len() ==> white_space(#[trigger] s[i]),
        ascii_normalized(trimmed(s)) == ascii_normalized(s),
        is_ascii_chars(s) ==> is_ascii_chars(ascii_normalized(s)),
{
    let line = joined(words(s), seq![' ']);
    let low = ascii_lowered(line);
    words_are_words(s);
    words_of_joined(words(s));
    words_of_lowered(line);
    assert(each_lowered(words(s)) =~= words(s).map_values(|w: Seq<char>| ascii_lowered(w)));
    joined_words_are_spaced(words(s));
    blank_texts_have_no_words(s);
    normalization_ignores_padding(s);
    assert forall|i: int| 0 <= i < low.len() implies white_space(#[trigger] low[i]) == white_space(
        line[i],
    ) && (line[i] == ' ' ==> low[i] == ' ') by {
        lower_facts(line[i]);
    }
    assert(low.len() > 0 ==> low.last() == low[low.len() - 1] && line.last() == line[line.len()
        - 1]);
    assert forall|i: int, j: int|
        0 <= i < low.len() && j == i + 1 && j < low.len() && white_space(
            #[trigger] low[i],
        ) implies !white_space(#[trigger] low[j]) by {
        assert(white_space(line[i]));
        assert(!white_space(line[j]));
    }
    assert forall|i: int| 0 <= i < low.len() && white_space(#[trigger] low[i]) implies low[i]
        == ' ' by {
        assert(white_space(line[i]));
    }
    if is_ascii_chars(s) {
        let p = |c: char| '\0' <= c <= '\u{7f}';
        words_keep(s, p);
        joined_keeps(words(s), seq![' '], p);
        assert forall|i: int| 0 <= i < low.len() implies '\0' <= #[trigger] low[i] <= '\u{7f}' by {
            assert(p(line[i]));
        }
    }
}

/// Normalizing an ASCII text a second time changes nothing.
pub proof fn ascii_normalization_is_stable(s: Seq<char>)
    ensures
        ascii_normalized(ascii_normalized(s)) == ascii_normalized(s),
{
    let line = joined(words(s), seq![' ']);
    words_are_words(s);
    words_of_joined(words(s));
    words_of_lowered(line);
    joined_of_lowered(words(s));
    assert(ascii_lowered(ascii_lowered(line)) =~= ascii_lowered(line)) by {
        assert forall|i: int| 0 <= i < line.len() implies ascii_lower(
            ascii_lower(#[trigger] line[i]),
        ) == ascii_lower(line[i]) by {
            lower_facts(line[i]);
        }
    }
}

proof fn joined_from_front(w: Seq<char>, ws: Seq<Seq<char>>, separator: Seq<char>)
    requires
        ws.len() > 0,
    ensures
        joined(seq![w] + ws, separator) == w + separator + joined(ws, separator),
    decreases ws.len(),
{
    let all = seq![w] + ws;
    assert(all.last() == ws.last());
    if ws.len() == 1 {
        assert(all.drop_last() =~= seq![w]);
        assert(joined(all.drop_last(), separator) == w);
    } else {
        assert(all.drop_last() =~= seq![w] + ws.drop_last());
        joined_from_front(w, ws.drop_last(), separator);
    }
    assert(joined(all, separator) =~= w + separator + joined(ws, separator));
}

/// A well-spaced text is its words, one blank apart.
pub proof fn spaced_texts_are_kept(s: Seq<char>)
    requires
        well_spaced(s),
    ensures
        joined(words(s), seq![' ']) == s,
    decreases s.len(),
{
    let n = run_len(s, CharClass::Word) as int;
    run_len_bound(s, CharClass::Word);
    run_end(s, CharClass::Word);
    if s.len() > 0 {
        let w = s.take(n);
        run_chars(s, CharClass::Word);
        assert(n > 0);
        if n == s.len() {
            assert(words(s.skip(n)) =~= Seq::<Seq<char>>::empty());
            assert(words(s) =~= seq![w]);
            assert(w =~= s);
        } else {
            let rest = s.skip(n + 1);
            assert(s[n] == ' ');
            assert(s.last() == s[s.len() - 1]);
            assert(rest.len() > 0);
            assert(rest[0] == s[n + 1]);
            assert(!white_space(s[n + 1]));
            assert forall|i: int| 0 <= i < rest.len() && white_space(
                #[trigger] rest[i],
            ) implies rest[i] == ' ' by {
                assert(rest[i] == s[i + n + 1]);
            }
            assert forall|i: int, j: int|
                0 <= i < rest.len() && j == i + 1 && j < rest.len() && white_space(
                    #[trigger] rest[i],
                ) implies !white_space(#[trigger] rest[j]) by {
                assert(rest[i] == s[i + n + 1] && rest[j] == s[j + n + 1]);
            }
            spaced_texts_are_kept(rest);
            blank_texts_have_no_words(rest);
            assert(s =~= w.push(' ') + rest);
            words_around_space(w, rest);
            assert forall|i: int| 0 <= i < w.len() implies !white_space(#[trigger] w[i]) by {
                assert(CharClass::Word.holds(s[i]));
            }
            run_len_of_word(w);
            assert(w.take(n) =~= w);
            assert(words(w.skip(n)) =~= Seq::<Seq<char>>::empty());
            assert(words(w) =~= seq![w]);
            joined_from_front(w, words(rest), seq![' ']);
            assert(joined(words(s), seq![' ']) =~= s);
        }
    }
}

/// The character behind a run does not belong to its class.
proof fn run_end(s: Seq<char>, class: CharClass)
    ensures
        run_len(s, class) < s.len() ==> !class.holds(s[run_len(s, class) as int]),
    decreases s.len(),
{
    if s.len() > 0 && class.holds(s[0]) {
        run_end(s.skip(1), class);
        run_len_bound(s.skip(1), class);
    }
}

/// Normalizing a text a second time changes nothing where lower-casing its normal form does not and
/// lower-casing has brought no white space into it.
pub proof fn normalization_is_stable(s: Seq<char>)
    ensures
        lowercase(normalized(s)) == normalized(s) && well_spaced(normalized(s)) ==> normalized(
            normalized(s),
        ) == normalized(s),
{
    if well_spaced(normalized(s)) {
        spaced_texts_are_kept(normalized(s));
    }
}

/// Trimming takes white space off both ends and nothing else: what is left neither starts nor ends
/// with white space.
pub proof fn trimming_is_exact(s: Seq<char>)
    ensures
        trimmed(s).len() > 0 ==> !white_space(trimmed(s)[0]) && !white_space(trimmed(s).last()),
        exists|a: int, b: int|
            {
                &&& 0 <= a <= b <= s.len()
                &&& trimmed(s) == #[trigger] s.subrange(a, b)
                &&& forall|i: int| 0 <= i < a ==> white_space(#[trigger] s[i])
                &&& forall|i: int| b <= i < s.len() ==> white_space(#[trigger] s[i])
            },
{
    let a = trimmed_start_is(s);
    let t = trimmed_start(s);
    let n = trimmed_end_is(t);
    assert(trimmed(s) =~= s.subrange(a, a + n));
    assert forall|i: int| a + n <= i < s.len() implies white_space(#[trigger] s[i]) by {
        assert(t[i - a] == s[i]);
    }
}

proof fn trimmed_start_is(s: Seq<char>) -> (a: int)
    ensures
        0 <= a <= s.len(),
        trimmed_start(s) == s.skip(a),
        forall|i: int| 0 <= i < a ==> white_space(#[trigger] s[i]),
        a < s.len() ==> !white_space(s[a]),
    decreases s.len(),
{
    if s.len() > 0 && white_space(s[0]) {
        let b = trimmed_start_is(s.skip(1));
        assert(s.skip(1).skip(b) =~= s.skip(b + 1));
        assert forall|i: int| 0 <= i < b + 1 implies white_space(#[trigger] s[i]) by {
            if i > 0 {
                assert(s.skip(1)[i - 1] == s[i]);
            }
        }
        b + 1
    } else {
        assert(s.skip(0) =~= s);
        0
    }
}

proof fn trimmed_end_is(s: Seq<char>) -> (n: int)
    ensures
        0 <= n <= s.len(),
        trimmed_end(s) == s.take(n),
        forall|i: int| n <= i < s.len() ==> white_space(#[trigger] s[i]),
        n > 0 ==> !white_space(s[n - 1]),
    decreases s.len(),
{
    if s.len() > 0 && white_space(s.last()) {
        let init = s.drop_last();
        let n = trimmed_end_is(init);
        assert(init.take(n) =~= s.take(n));
        assert forall|i: int| n <= i < s.len() implies white_space(#[trigger] s[i]) by {
            if i < s.len() - 1 {
                assert(init[i] == s[i]);
            }
        }
        n
    } else {
        assert(s.take(s.len() as int) =~= s);
        s.len() as int
    }
}

/// A word by itself is its only word.
pub proof fn word_is_its_only_word(w: Seq<char>)
    requires
        is_word(w),
    ensures
        words(w) == seq![w],
{
    run_len_of_word(w);
    assert(w.take(w.len() as int) =~= w);
    assert(words(w.skip(w.len() as int)) =~= Seq::<Seq<char>>::empty());
    assert(words(w) =~= seq![w]);
}

proof fn run_len_before(a: Seq<char>, c: char, b: Seq<char>)
    requires
        white_space(c),
    ensures
        run_len(a.push(c) + b, CharClass::Word) == run_len(a, CharClass::Word),
    decreases a.len(),
{
    let t = a.push(c) + b;
    if a.len() > 0 {
        assert(t[0] == a[0]);
        assert(t.skip(1) =~= a.skip(1).push(c) + b);
        run_len_before(a.skip(1), c, b);
    } else {
        assert(t[0] == c);
    }
}

/// White space of any kind parts the words on either side of it and adds none.
pub proof fn words_are_parted_by_white_space(a: Seq<char>, c: char, b: Seq<char>)
    requires
        white_space(c),
    ensures
        words(a.push(c) + b) == words(a) + words(b),
    decreases a.len(),
{
    let t = a.push(c) + b;
    let n = run_len(a, CharClass::Word) as int;
    run_len_bound(a, CharClass::Word);
    run_len_before(a, c, b);
    if a.len() == 0 {
        assert(t.skip(1) =~= b);
        assert(words(a) =~= Seq::<Seq<char>>::empty());
        assert(words(a) + words(b) =~= words(b));
    } else if n == 0 {
        assert(t.skip(1) =~= a.skip(1).push(c) + b);
        words_are_parted_by_white_space(a.skip(1), c, b);
    } else {
        assert(t.take(n) =~= a.take(n));
        assert(t.skip(n) =~= a.skip(n).push(c) + b);
        words_are_parted_by_white_space(a.skip(n), c, b);
        assert(words(t) =~= seq![a.take(n)] + (words(a.skip(n)) + words(b)));
        assert(seq![a.take(n)] + (words(a.skip(n)) + words(b)) =~= (seq![a.take(n)] + words(
            a.skip(n),
        )) + words(b));
    }
}

/// The normal form of a text is that of any well-spaced text with the same words, in lower case.
pub proof fn normal_form_is_lowered_words(s: Seq<char>, line: Seq<char>)
    requires
        well_spaced(line),
        words(line) == words(s),
    ensures
        normalized(s) == lowercase(line),
{
    spaced_texts_are_kept(line);
}

/// Whether the characters from `i` up to `j` belong to the class and those around them do not.
pub open spec fn is_stretch(s: Seq<char>, class: CharClass, i: int, j: int) -> bool {
    &&& 0 <= i < j <= s.len()
    &&& forall|k: int| i <= k < j ==> class.holds(#[trigger] s[k])
    &&& i > 0 ==> !class.holds(s[i - 1])
    &&& j < s.len() ==> !class.holds(s[j])
}

/// Every stretch of characters of a class that cannot be made longer is one of the runs.
pub proof fn stretches_are_runs(s: Seq<char>, class: CharClass, i: int, j: int)
    requires
        is_stretch(s, class, i, j),
    ensures
        runs(s, class).contains(s.subrange(i, j)),
    decreases s.len(),
{
    let n = run_len(s, class) as int;
    run_len_bound(s, class);
    run_chars(s, class);
    run_end(s, class);
    if n == 0 {
        assert(!class.holds(s[0]));
        assert(i > 0);
        let t = s.skip(1);
        assert forall|k: int| i - 1 <= k < j - 1 implies class.holds(#[trigger] t[k]) by {
            assert(t[k] == s[k + 1]);
        }
        stretches_are_runs(t, class, i - 1, j - 1);
        assert(t.subrange(i - 1, j - 1) =~= s.subrange(i, j));
    } else if i == 0 {
        if n < j {
            assert(class.holds(s[n]));
        }
        if j < n {
            assert(class.holds(s[j]));
        }
        assert(s.subrange(i, j) =~= s.take(n));
        assert(runs(s, class)[0] == s.take(n));
    } else {
        if i - 1 < n {
            assert(class.holds(s[i - 1]));
        }
        let t = s.skip(n);
        assert forall|k: int| i - n <= k < j - n implies class.holds(#[trigger] t[k]) by {
            assert(t[k] == s[k + n]);
        }
        stretches_are_runs(t, class, i - n, j - n);
        assert(t.subrange(i - n, j - n) =~= s.subrange(i, j));
        let k = choose|k: int|
            0 <= k < runs(t, class).len() && runs(t, class)[k] == t.subrange(i - n, j - n);
        assert(runs(s, class)[k + 1] == s.subrange(i, j));
    }
}

/// Every run is a stretch of the text that cannot be made longer.
pub proof fn runs_are_stretches(s: Seq<char>, class: CharClass, k: int) -> (r: (int, int))
    requires
        0 <= k < runs(s, class).len(),
    ensures
        is_stretch(s, class, r.0, r.1),
        runs(s, class)[k] == s.subrange(r.0, r.1),
    decreases s.len(),
{
    let n = run_len(s, class) as int;
    run_len_bound(s, class);
    run_chars(s, class);
    run_end(s, class);
    if n == 0 {
        let t = s.skip(1);
        let (i, j) = runs_are_stretches(t, class, k);
        assert(t.subrange(i, j) =~= s.subrange(i + 1, j + 1));
        assert forall|m: int| i + 1 <= m < j + 1 implies class.holds(#[trigger] s[m]) by {
            assert(t[m - 1] == s[m]);
        }
        assert(i > 0 ==> t[i - 1] == s[i]);
        (i + 1, j + 1)
    } else if k == 0 {
        assert(s.take(n) =~= s.subrange(0, n));
        (0, n)
    } else {
        let t = s.skip(n);
        let (i, j) = runs_are_stretches(t, class, k - 1);
        assert(t.subrange(i, j) =~= s.subrange(i + n, j + n));
        assert forall|m: int| i + n <= m < j + n implies class.holds(#[trigger] s[m]) by {
            assert(t[m - n] == s[m]);
        }
        assert(i > 0 ==> t[i - 1] == s[i + n - 1]);
        if i == 0 {
            assert(t[0] == s[n]);
        }
        (i + n, j + n)
    }
}

/// What a term is made of: letters, digits, underscores and hyphens; and a word: whatever is not
/// white space.
pub proof fn classes_hold_their_characters(c: char)
    ensures
        CharClass::Term.holds(c) <==> alphanumeric(c) || c == '_' || c == '-',
        CharClass::Word.holds(c) <==> !white_space(c),
{
}

/// Of several pieces, the joined text starts with the first one, and each further one follows after
/// the separator.
pub proof fn joining_puts_separators_between(pieces: Seq<Seq<char>>, separator: Seq<char>, p: Seq<
    char,
>)
    ensures
        joined(Seq::empty(), separator) == Seq::<char>::empty(),
        joined(seq![p], separator) == p,
        pieces.len() > 0 ==> joined(pieces.push(p), separator) == joined(pieces, separator)
            + separator + p,
{
    if pieces.len() > 0 {
        assert(pieces.push(p).drop_last() =~= pieces);
    }
}

/// A text that neither starts nor ends with white space is not trimmed.
pub proof fn trimming_keeps_inner_text(w: Seq<char>)
    requires
        w.len() > 0,
        !white_space(w[0]),
        !white_space(w.last()),
    ensures
        trimmed(w) == w,
{
    assert(trimmed_start(w) == w);
    assert(trimmed_end(w) == w);
}

/// Nothing is left of a trimmed text exactly where it held white space only.
pub proof fn only_blank_texts_trim_to_nothing(s: Seq<char>)
    ensures
        trimmed(s).len() > 0 <==> exists|i: int| 0 <= i < s.len() && !white_space(#[trigger] s[i]),
{
    trimming_is_exact(s);
    let (a, b) = choose|a: int, b: int|
        {
            &&& 0 <= a <= b <= s.len()
            &&& trimmed(s) == #[trigger] s.subrange(a, b)
            &&& forall|i: int| 0 <= i < a ==> white_space(#[trigger] s[i])
            &&& forall|i: int| b <= i < s.len() ==> white_space(#[trigger] s[i])
        };
    if trimmed(s).len() > 0 {
        assert(trimmed(s)[0] == s[a]);
    }
}

} // verus!
