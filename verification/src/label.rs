//! Human-readable labels for lower-snake-cased identifiers.

use vstd::prelude::*;
use crate::text::{chars_of, string_of};

verus! {

/// The upper-case mapping of one character: the characters that
/// `char::to_uppercase` yields for it, in order.
pub uninterp spec fn uppercase_of(c: char) -> Seq<char>;

/// Calls `char::to_uppercase` and collects what it yields.
#[verifier::external_body]
fn upper(c: char) -> (r: Vec<char>)
    ensures
        r@ == uppercase_of(c),
{
    c.to_uppercase().collect()
}

/// Whether a fragment of the identifier begins at position `i`: the
/// character there is no underscore and follows one or stands first.
pub open spec fn begins_word(s: Seq<char>, i: int) -> bool {
    s[i] != '_' && (i == 0 || s[i - 1] == '_')
}

/// What the character at position `i` of an identifier contributes to its
/// label.
pub open spec fn label_piece(s: Seq<char>, i: int) -> Seq<char> {
    if s[i] == '_' {
        seq![' ']
    } else if begins_word(s, i) {
        uppercase_of(s[i])
    } else {
        seq![s[i]]
    }
}

/// The label of an identifier: every underscore becomes a space and the
/// first character of every underscore-separated fragment is upper-cased.
pub open spec fn label_of(s: Seq<char>) -> Seq<char> {
    Seq::new(s.len(), |i: int| label_piece(s, i)).flatten()
}

/// The views of a sequence of character vectors.
pub open spec fn capital_views(capitals: Seq<Vec<char>>) -> Seq<Seq<char>> {
    Seq::new(capitals.len(), |k: int| capitals[k]@)
}

/// What the character at position `i` contributes to the label when
/// `capitals` holds, for every position, what stands for the character
/// there at the beginning of a fragment. A position without an entry keeps
/// its character.
pub open spec fn piece_with(s: Seq<char>, capitals: Seq<Seq<char>>, i: int) -> Seq<char> {
    if s[i] == '_' {
        seq![' ']
    } else if begins_word(s, i) && i < capitals.len() {
        capitals[i]
    } else {
        seq![s[i]]
    }
}

/// The label of an identifier with the given capitals.
pub open spec fn label_with(s: Seq<char>, capitals: Seq<Seq<char>>) -> Seq<char> {
    Seq::new(s.len(), |i: int| piece_with(s, capitals, i)).flatten()
}

/// Puts a label together: a space for every underscore, the capital for the
/// first character of every fragment, and every other character as it is.
pub fn assemble_label(chars: &Vec<char>, capitals: &Vec<Vec<char>>) -> (out: Vec<char>)
    ensures
        out@ == label_with(chars@, capital_views(capitals@)),
{
    let ghost s = chars@;
    let ghost caps = capital_views(capitals@);
    let mut out: Vec<char> = Vec::new();
    let mut i: usize = 0;
    let mut word_start = true;
    while i < chars.len()
        invariant
            i <= chars.len(),
            s == chars@,
            caps == capital_views(capitals@),
            word_start == (i == 0 || chars@[i - 1] == '_'),
            out@ == Seq::new(i as nat, |k: int| piece_with(s, caps, k)).flatten(),
        decreases chars.len() - i,
    {
        let c = chars[i];
        proof {
            let before = Seq::new(i as nat, |k: int| piece_with(s, caps, k));
            let after = Seq::new((i + 1) as nat, |k: int| piece_with(s, caps, k));
            assert(after =~= before.push(piece_with(s, caps, i as int)));
            before.lemma_flatten_push(piece_with(s, caps, i as int));
        }
        if c == '_' {
            out.push(' ');
            word_start = true;
        } else if word_start && i < capitals.len() {
            let mut k: usize = 0;
            let ghost start = out@;
            while k < capitals[i].len()
                invariant
                    k <= capitals[i as int].len(),
                    i < capitals.len(),
                    out@ == start + capitals[i as int]@.take(k as int),
                decreases capitals[i as int].len() - k,
            {
                out.push(capitals[i][k]);
                assert(out@ =~= start + capitals[i as int]@.take(k + 1));
                k += 1;
            }
            assert(capitals[i as int]@.take(k as int) =~= capitals[i as int]@);
            word_start = false;
        } else {
            out.push(c);
            word_start = false;
        }
        i += 1;
    }
    out
}

/// The characters of the label of an identifier.
pub fn label_chars(chars: &Vec<char>) -> (out: Vec<char>)
    ensures
        out@ == label_of(chars@),
{
    let mut capitals: Vec<Vec<char>> = Vec::new();
    let mut i: usize = 0;
    while i < chars.len()
        invariant
            i <= chars.len(),
            capitals.len() == i,
            forall|k: int|
                0 <= k < i && begins_word(chars@, k) ==> (#[trigger] capitals[k])@ == uppercase_of(
                    chars@[k],
                ),
        decreases chars.len() - i,
    {
        let starts: bool = chars[i] != '_' && (i == 0 || chars[i - 1] == '_');
        if starts {
            capitals.push(upper(chars[i]));
        } else {
            capitals.push(Vec::new());
        }
        i += 1;
    }
    proof {
        let caps = capital_views(capitals@);
        assert(Seq::new(chars@.len(), |k: int| piece_with(chars@, caps, k)) =~= Seq::new(
            chars@.len(),
            |k: int| label_piece(chars@, k),
        )) by {
            assert forall|k: int| 0 <= k < chars@.len() implies piece_with(chars@, caps, k)
                == label_piece(chars@, k) by {
                if begins_word(chars@, k) {
                    assert(caps[k] == capitals[k]@);
                }
            }
        }
    }
    assemble_label(chars, &capitals)
}

/// The label of the identifier `s`: `fire_crystal` becomes `Fire Crystal`.
pub fn show(s: &str) -> (out: String)
    ensures
        out@ == label_of(s@),
{
    let chars = chars_of(s);
    string_of(&label_chars(&chars))
}

} // verus!
