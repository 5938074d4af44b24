//! Quoting for the editor's command language, and trimming of line endings.

use vstd::prelude::*;

verus! {

/// A string escaped for embedding inside a single-quoted editor literal:
/// every single quote is doubled.
pub open spec fn escaped(s: Seq<char>) -> Seq<char>
    decreases s.len(),
{
    if s.len() == 0 {
        Seq::empty()
    } else {
        let rest = escaped(s.drop_last());
        if s.last() == '\'' {
            rest.push('\'').push('\'')
        } else {
            rest.push(s.last())
        }
    }
}

/// A string wrapped in single quotes, with inner quotes doubled.
pub open spec fn quoted(s: Seq<char>) -> Seq<char> {
    seq!['\''] + escaped(s) + seq!['\'']
}

/// A string with every trailing carriage return or line feed removed.
pub open spec fn trimmed_line(s: Seq<char>) -> Seq<char>
    decreases s.len(),
{
    if s.len() > 0 && (s.last() == '\r' || s.last() == '\n') {
        trimmed_line(s.drop_last())
    } else {
        s
    }
}

/// Relies on String::push: appends the given character to the end of the string.
#[verifier::external_body]
pub(crate) fn push_char(s: &mut String, c: char)
    ensures
        final(s)@ == old(s)@.push(c),
{
    s.push(c)
}

/// Escape a string destined for a single-quoted editor literal by doubling
/// every single quote in it.
pub fn editor_escape(s: &str) -> (r: String)
    ensures
        r@ == escaped(s@),
{
    let n: usize = s.unicode_len();
    let mut out = String::new();
    let mut i: usize = 0;
    while i < n
        invariant
            n == s@.len(),
            0 <= i <= n,
            out@ == escaped(s@.take(i as int)),
        decreases n - i,
    {
        let c = s.get_char(i);
        proof {
            assert(s@.take(i + 1 as int).drop_last() =~= s@.take(i as int));
            assert(s@.take(i + 1 as int).last() == s@[i as int]);
        }
        if c == '\'' {
            push_char(&mut out, '\'');
            push_char(&mut out, '\'');
        } else {
            push_char(&mut out, c);
        }
        i = i + 1;
    }
    proof {
        assert(s@.take(n as int) =~= s@);
    }
    out
}

/// Convert a string to an editor string literal by wrapping it in single
/// quotes and escaping the quotes inside it.
pub fn editor_quote(s: &str) -> (r: String)
    ensures
        r@ == quoted(s@),
{
    let mut out = String::new();
    push_char(&mut out, '\'');
    let esc = editor_escape(s);
    out.append(esc.as_str());
    push_char(&mut out, '\'');
    proof {
        assert(out@ =~= quoted(s@));
    }
    out
}

/// The editor command that opens a file.
pub fn edit_command(path: &str) -> (r: String)
    ensures
        r@ == "edit "@ + quoted(path@),
{
    let mut out = String::from_str("edit ");
    let q = editor_quote(path);
    out.append(q.as_str());
    proof {
        assert(out@ =~= "edit "@ + quoted(path@));
    }
    out
}

/// The editor command that switches to an already-open in-memory buffer.
pub fn buffer_command(path: &str) -> (r: String)
    ensures
        r@ == "buffer "@ + quoted(path@),
{
    let mut out = String::from_str("buffer ");
    let q = editor_quote(path);
    out.append(q.as_str());
    proof {
        assert(out@ =~= "buffer "@ + quoted(path@));
    }
    out
}

/// Remove every trailing carriage return or line feed from a string.
pub fn trim_line_end(s: &str) -> (r: String)
    ensures
        r@ == trimmed_line(s@),
{
    let n: usize = s.unicode_len();
    let mut e: usize = n;
    proof {
        assert(s@.take(n as int) =~= s@);
    }
    while e > 0 && (s.get_char(e - 1) == '\r' || s.get_char(e - 1) == '\n')
        invariant
            n == s@.len(),
            0 <= e <= n,
            trimmed_line(s@) == trimmed_line(s@.take(e as int)),
        decreases e,
    {
        proof {
            assert(s@.take(e as int).drop_last() =~= s@.take(e - 1));
            assert(s@.take(e as int).last() == s@[e - 1]);
        }
        e = e - 1;
    }
    proof {
        if e > 0 {
            assert(s@.take(e as int).last() == s@[e - 1]);
        }
        assert(trimmed_line(s@.take(e as int)) =~= s@.take(e as int));
    }
    s.substring_char(0, e).to_owned()
}

} // verus!
