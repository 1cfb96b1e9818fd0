//! Word and language validation, and case normalization of headwords.
//!
//! Unicode character classes and case mappings come from the standard
//! library; they are functions of their argument alone, so each gets a name
//! that the contracts speak of exactly.

use vstd::prelude::*;
use vstd::string::StrSliceExecFns;
use vstd::string::StringExecFns;

verus! {

/// Whether `c` is alphabetic, as the Unicode tables have it.
pub uninterp spec fn char_alphabetic(c: char) -> bool;

/// Whether `c` is whitespace, as the Unicode tables have it.
pub uninterp spec fn char_whitespace(c: char) -> bool;

/// The lowercase form of a string, character tables included.
pub uninterp spec fn lower_of(s: Seq<char>) -> Seq<char>;

/// The uppercase expansion of one character (it may be several characters).
pub uninterp spec fn upper_of(c: char) -> Seq<char>;

/// Relies on char::is_alphabetic: the Unicode Alphabetic property of `c`.
#[verifier::external_body]
fn is_alphabetic_char(c: char) -> (r: bool)
    ensures
        r == char_alphabetic(c),
{
    c.is_alphabetic()
}

/// Relies on char::is_whitespace: the Unicode White_Space property of `c`.
#[verifier::external_body]
fn is_whitespace_char(c: char) -> (r: bool)
    ensures
        r == char_whitespace(c),
{
    c.is_whitespace()
}

/// Relies on str::to_lowercase: the result depends on the characters alone.
#[verifier::external_body]
fn lowercase(s: &str) -> (r: String)
    ensures
        r@ == lower_of(s@),
{
    s.to_lowercase()
}

/// Relies on char::to_uppercase: the result depends on the character alone.
#[verifier::external_body]
fn uppercase_char(c: char) -> (r: String)
    ensures
        r@ == upper_of(c),
{
    c.to_uppercase().collect::<String>()
}

/// Whether the characters of `s` make a well-formed word: not all whitespace,
/// and nothing besides letters and whitespace.
pub open spec fn valid_word(s: Seq<char>) -> bool {
    &&& exists|i: int| 0 <= i < s.len() && !char_whitespace(s[i])
    &&& forall|i: int| 0 <= i < s.len() ==> char_alphabetic(s[i]) || char_whitespace(s[i])
}

/// A word may be stored if it is non-empty once trimmed and holds only
/// letters and whitespace.
pub fn is_valid_word(word: &str) -> (r: bool)
    ensures
        r == valid_word(word@),
{
    let len: usize = word.unicode_len();
    let mut saw_content = false;
    let mut all_clean = true;
    let mut i: usize = 0;
    while i < len
        invariant
            0 <= i <= len,
            len == word@.len(),
            saw_content == exists|j: int| 0 <= j < i && !char_whitespace(word@[j]),
            all_clean == forall|j: int|
                0 <= j < i ==> char_alphabetic(word@[j]) || char_whitespace(word@[j]),
        decreases len - i,
    {
        let c = word.get_char(i);
        if !is_whitespace_char(c) {
            saw_content = true;
        }
        if !(is_alphabetic_char(c) || is_whitespace_char(c)) {
            all_clean = false;
        }
        i = i + 1;
    }
    saw_content && all_clean
}

/// The normalized form of a headword: the whole word lowercased, then the
/// first character uppercased.
pub open spec fn capitalized(s: Seq<char>) -> Seq<char> {
    if lower_of(s).len() == 0 {
        Seq::empty()
    } else {
        upper_of(lower_of(s)[0]) + lower_of(s).drop_first()
    }
}

/// Normalizes a word to "first letter uppercase, rest lowercase".
pub fn first_letter_uppercase(word: &str) -> (r: String)
    ensures
        r@ == capitalized(word@),
{
    let low = lowercase(word);
    let len: usize = low.as_str().unicode_len();
    if len == 0 {
        String::new()
    } else {
        let head = low.as_str().get_char(0);
        let rest = low.as_str().substring_char(1, len);
        let out = uppercase_char(head).concat(rest);
        proof {
            assert(rest@ =~= lower_of(word@).drop_first());
        }
        out
    }
}

/// What is left after dropping leading whitespace.
pub open spec fn trim_front(s: Seq<char>) -> Seq<char>
    decreases s.len(),
{
    if s.len() > 0 && char_whitespace(s[0]) {
        trim_front(s.drop_first())
    } else {
        s
    }
}

/// What is left after dropping trailing whitespace.
pub open spec fn trim_back(s: Seq<char>) -> Seq<char>
    decreases s.len(),
{
    if s.len() > 0 && char_whitespace(s.last()) {
        trim_back(s.drop_last())
    } else {
        s
    }
}

/// What is left after dropping whitespace at both ends.
pub open spec fn trim_of(s: Seq<char>) -> Seq<char> {
    trim_back(trim_front(s))
}

/// Dropping leading whitespace skips exactly the whitespace prefix.
proof fn lemma_trim_front_skip(s: Seq<char>, a: int)
    requires
        0 <= a <= s.len(),
        forall|k: int| 0 <= k < a ==> char_whitespace(s[k]),
        a == s.len() || !char_whitespace(s[a]),
    ensures
        trim_front(s) == s.skip(a),
    decreases a,
{
    if a == 0 {
        assert(s.skip(0) =~= s);
    } else {
        let s1 = s.drop_first();
        assert(forall|k: int| 0 <= k < a - 1 ==> char_whitespace(s1[k]));
        lemma_trim_front_skip(s1, a - 1);
        assert(s1.skip(a - 1) =~= s.skip(a));
    }
}

/// Dropping trailing whitespace keeps exactly the prefix before the
/// whitespace suffix.
proof fn lemma_trim_back_take(s: Seq<char>, b: int)
    requires
        0 <= b <= s.len(),
        forall|k: int| b <= k < s.len() ==> char_whitespace(s[k]),
        b == 0 || !char_whitespace(s[b - 1]),
    ensures
        trim_back(s) == s.take(b),
    decreases s.len() - b,
{
    if b == s.len() {
        assert(s.take(b) =~= s);
    } else {
        let s1 = s.drop_last();
        assert(char_whitespace(s.last()));
        assert(forall|k: int| b <= k < s1.len() ==> char_whitespace(s1[k]));
        lemma_trim_back_take(s1, b);
        assert(s1.take(b) =~= s.take(b));
    }
}

/// Drops whitespace at both ends of a word.
pub fn trimmed(s: &str) -> (r: String)
    ensures
        r@ == trim_of(s@),
{
    let n = s.unicode_len();
    let mut a: usize = 0;
    while a < n
        invariant
            0 <= a <= n,
            n == s@.len(),
            forall|k: int| 0 <= k < a ==> char_whitespace(s@[k]),
        ensures
            0 <= a <= n,
            forall|k: int| 0 <= k < a ==> char_whitespace(s@[k]),
            a == n || !char_whitespace(s@[a as int]),
        decreases n - a,
    {
        if !is_whitespace_char(s.get_char(a)) {
            break ;
        }
        a = a + 1;
    }
    let mut b: usize = n;
    while b > a
        invariant
            a <= b <= n,
            n == s@.len(),
            forall|k: int| b <= k < n ==> char_whitespace(s@[k]),
        ensures
            a <= b <= n,
            forall|k: int| b <= k < n ==> char_whitespace(s@[k]),
            b == a || !char_whitespace(s@[b as int - 1]),
        decreases b,
    {
        if !is_whitespace_char(s.get_char(b - 1)) {
            break ;
        }
        b = b - 1;
    }
    let r = s.substring_char(a, b).to_owned();
    proof {
        lemma_trim_front_skip(s@, a as int);
        lemma_trim_back_take(s@.skip(a as int), b as int - a as int);
        assert(s@.skip(a as int).take(b as int - a as int) =~= s@.subrange(a as int, b as int));
    }
    r
}

/// What one line of user input means at any prompt.
pub enum InputOutcome {
    /// The exit sentinel: save the dictionary and stop.
    Exit,
    /// A well-formed word, normalized and ready to use.
    Word(String),
    /// Input to reject, asking the user again.
    Invalid,
}

/// Reads one line of input: the exit sentinel wins at any prompt, a valid
/// word is normalized, and anything else is rejected.
pub fn classify_input(raw: &str) -> (r: InputOutcome)
    ensures
        ({
            let t = trim_of(raw@);
            &&& (r is Exit <==> t == "6"@)
            &&& (r matches InputOutcome::Word(w) ==> t != "6"@ && valid_word(t) && w@
                == capitalized(t))
            &&& (r is Word <==> t != "6"@ && valid_word(t))
            &&& (r is Invalid <==> t != "6"@ && !valid_word(t))
        }),
{
    let t = trimmed(raw);
    if str_eq(t.as_str(), "6") {
        InputOutcome::Exit
    } else if is_valid_word(t.as_str()) {
        InputOutcome::Word(first_letter_uppercase(t.as_str()))
    } else {
        InputOutcome::Invalid
    }
}

/// Whether `l` is one of the supported language names.
pub open spec fn supported_language(l: Seq<char>) -> bool {
    l == "Français"@ || l == "Arabe"@
}

/// The closed set of language names the dictionary accepts.
pub fn supported_languages() -> (r: Vec<String>)
    ensures
        r@.len() == 2,
        r@[0]@ == "Français"@,
        r@[1]@ == "Arabe"@,
        forall|i: int| 0 <= i < r@.len() ==> supported_language(r@[i]@),
        forall|l: Seq<char>| supported_language(l) ==> exists|i: int|
            0 <= i < r@.len() && r@[i]@ == l,
{
    let mut v: Vec<String> = Vec::new();
    v.push("Français".to_owned());
    v.push("Arabe".to_owned());
    v
}

/// Compares two string slices character for character.
pub fn str_eq(a: &str, b: &str) -> (r: bool)
    ensures
        r == (a@ == b@),
{
    let oa: String = a.to_owned();
    let ob: String = b.to_owned();
    oa == ob
}

/// A language is accepted exactly when it is one of the supported set,
/// compared case-sensitively.
pub fn is_supported_language(language: &str) -> (r: bool)
    ensures
        r == supported_language(language@),
{
    str_eq(language, "Français") || str_eq(language, "Arabe")
}

} // verus!
