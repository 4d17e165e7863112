use vstd::prelude::*;

verus! {

/// Whether `c` is alphabetic or numeric in Unicode's sense.
pub uninterp spec fn alphanumeric(c: char) -> bool;

/// Relies on `char::is_alphanumeric`: the answer depends on the character alone.
#[verifier::external_body]
fn is_alphanumeric(c: char) -> (r: bool)
    ensures
        r == alphanumeric(c),
{
    c.is_alphanumeric()
}

/// An identifier that can be written without quotes.
pub open spec fn is_bare_id(s: Seq<char>) -> bool {
    forall|i: int| 0 <= i < s.len() ==> alphanumeric(#[trigger] s[i])
}

/// An identifier as DOT text: unchanged when alphanumeric, else in double quotes.
pub open spec fn pretty_id_text(s: Seq<char>) -> Seq<char> {
    if is_bare_id(s) {
        s
    } else {
        seq!['"'] + s + seq!['"']
    }
}

/// `n` tab characters.
pub open spec fn tabs(n: nat) -> Seq<char>
    decreases n,
{
    if n == 0 {
        Seq::empty()
    } else {
        tabs((n - 1) as nat).push('\t')
    }
}

/// Appends `n` tab characters to `out`.
pub fn push_tabs(out: &mut String, n: usize)
    ensures
        final(out)@ == old(out)@ + tabs(n as nat),
{
    let mut i: usize = 0;
    while i < n
        invariant
            i <= n,
            out@ == old(out)@ + tabs(i as nat),
        decreases n - i,
    {
        out.append("\t");
        proof {
            reveal_strlit("\t");
            assert(tabs((i + 1) as nat) == tabs(i as nat).push('\t'));
        }
        i = i + 1;
    }
}

/// Renders an identifier, quoting it unless every character is alphanumeric.
pub fn pretty_id(id: &str) -> (r: String)
    ensures
        r@ == pretty_id_text(id@),
{
    let n = id.unicode_len();
    let mut bare = true;
    let mut i: usize = 0;
    while i < n
        invariant
            i <= n,
            n == id@.len(),
            bare == (forall|k: int| 0 <= k < i ==> alphanumeric(#[trigger] id@[k])),
        decreases n - i,
    {
        let c = id.get_char(i);
        if !is_alphanumeric(c) {
            bare = false;
        }
        i = i + 1;
    }
    if bare {
        String::from_str(id)
    } else {
        let mut r = String::from_str("\"");
        r.append(id);
        r.append("\"");
        proof {
            reveal_strlit("\"");
        }
        r
    }
}

} // verus!
