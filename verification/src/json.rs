//! The JSON codec: a character-level scanner that splits JSON text into
//! delimited raw slices, lazily-typed `JsonObject` / `JsonArray` values
//! over those slices, and typed retrieval and serialization traits.
//!
//! The scanner is specified by recursive functions over character
//! sequences; every executable function is proved to compute exactly what
//! its specification says.

use crate::strutil::{
    all_digits, append_chars, chars_eq, chars_to_string, dec_val, digit_val, i64_to_chars,
    i_chars, int_chars_val, is_int_chars, is_ws, is_ws_exec, join_chars, parse_i32_chars,
    parse_i64_chars, spec_join, str_to_chars, sub_chars, u64_to_chars, u_chars,
};
use vstd::prelude::*;
use vstd::string::*;

verus! {

// ---------------------------------------------------------------------------
// Scanner specifications
// ---------------------------------------------------------------------------
/// Scans a string body up to and including its closing quote.  The escape
/// state is the parity of the run of backslashes immediately before the
/// current position; a quote ends the string only when unescaped.  Returns
/// the scanned characters (closing quote included) and the rest.
pub open spec fn ext_string(s: Seq<char>, esc: bool) -> (Seq<char>, Seq<char>)
    decreases s.len(),
{
    if s.len() == 0 {
        (Seq::empty(), s)
    } else {
        let n = s[0];
        if n == '"' && !esc {
            (seq![n], s.skip(1))
        } else {
            let r = ext_string(s.skip(1), n == '\\' && !esc);
            (seq![n] + r.0, r.1)
        }
    }
}

/// Scans a delimited composite (object or array) body.  `depth` counts
/// unmatched `open` delimiters; an unescaped quote toggles `in_str`, and
/// delimiters inside strings do not change the depth.  Whitespace outside
/// strings is dropped.  Scanning ends on the `close` that brings the depth
/// to zero; that delimiter is included in the output.
pub open spec fn ext_delim(
    s: Seq<char>,
    depth: int,
    in_str: bool,
    esc: bool,
    open: char,
    close: char,
) -> (Seq<char>, Seq<char>)
    decreases s.len(),
{
    if s.len() == 0 {
        (Seq::empty(), s)
    } else {
        let n = s[0];
        let ins = if n == '"' && !esc {
            !in_str
        } else {
            in_str
        };
        let esc2 = n == '\\' && !esc;
        if !ins && is_ws(n) {
            ext_delim(s.skip(1), depth, ins, esc2, open, close)
        } else {
            let d2 = if ins {
                depth
            } else if n == open {
                depth + 1
            } else if n == close {
                depth - 1
            } else {
                depth
            };
            if d2 == 0 {
                (seq![n], s.skip(1))
            } else {
                let r = ext_delim(s.skip(1), d2, ins, esc2, open, close);
                (seq![n] + r.0, r.1)
            }
        }
    }
}

/// Scans a primitive token: characters up to the next whitespace, comma or
/// closing delimiter.  The stopping character is consumed but not kept.
pub open spec fn ext_prim(s: Seq<char>) -> (Seq<char>, Seq<char>)
    decreases s.len(),
{
    if s.len() == 0 {
        (Seq::empty(), s)
    } else {
        let n = s[0];
        if is_ws(n) || n == ',' || n == '}' || n == ']' {
            (Seq::empty(), s.skip(1))
        } else {
            let r = ext_prim(s.skip(1));
            (seq![n] + r.0, r.1)
        }
    }
}

/// Everything after the first `:`; the whole rest if there is none.
pub open spec fn skip_past_colon(s: Seq<char>) -> Seq<char>
    decreases s.len(),
{
    if s.len() == 0 {
        s
    } else if s[0] == ':' {
        s.skip(1)
    } else {
        skip_past_colon(s.skip(1))
    }
}

/// Reads an object key: characters up to the next quote, then skips past
/// the following colon.  Returns the key and the rest.
pub open spec fn key_split(s: Seq<char>) -> (Seq<char>, Seq<char>)
    decreases s.len(),
{
    if s.len() == 0 {
        (Seq::empty(), s)
    } else if s[0] != '"' {
        let r = key_split(s.skip(1));
        (seq![s[0]] + r.0, r.1)
    } else {
        (Seq::empty(), skip_past_colon(s.skip(1)))
    }
}

/// Reads one raw value: skips spaces and commas, then dispatches on the
/// first significant character — `"` starts a string, `{` an object, `[`
/// an array, anything else a primitive.
pub open spec fn value_split(s: Seq<char>) -> (Seq<char>, Seq<char>)
    decreases s.len(),
{
    if s.len() == 0 {
        (Seq::empty(), s)
    } else if s[0] == ' ' || s[0] == ',' {
        value_split(s.skip(1))
    } else if s[0] == '"' {
        let r = ext_string(s.skip(1), false);
        (seq!['"'] + r.0, r.1)
    } else if s[0] == '{' {
        let r = ext_delim(s.skip(1), 1, false, false, '{', '}');
        (seq!['{'] + r.0, r.1)
    } else if s[0] == '[' {
        let r = ext_delim(s.skip(1), 1, false, false, '[', ']');
        (seq!['['] + r.0, r.1)
    } else {
        let r = ext_prim(s.skip(1));
        (seq![s[0]] + r.0, r.1)
    }
}

pub proof fn lemma_ext_string_len(s: Seq<char>, esc: bool)
    ensures
        ext_string(s, esc).1.len() <= s.len(),
    decreases s.len(),
{
    if s.len() > 0 {
        if !(s[0] == '"' && !esc) {
            lemma_ext_string_len(s.skip(1), s[0] == '\\' && !esc);
        }
    }
}

pub proof fn lemma_ext_delim_len(
    s: Seq<char>,
    depth: int,
    in_str: bool,
    esc: bool,
    open: char,
    close: char,
)
    ensures
        ext_delim(s, depth, in_str, esc, open, close).1.len() <= s.len(),
    decreases s.len(),
{
    if s.len() > 0 {
        let n = s[0];
        let ins = if n == '"' && !esc {
            !in_str
        } else {
            in_str
        };
        let esc2 = n == '\\' && !esc;
        if !ins && is_ws(n) {
            lemma_ext_delim_len(s.skip(1), depth, ins, esc2, open, close);
        } else {
            let d2 = if ins {
                depth
            } else if n == open {
                depth + 1
            } else if n == close {
                depth - 1
            } else {
                depth
            };
            if d2 != 0 {
                lemma_ext_delim_len(s.skip(1), d2, ins, esc2, open, close);
            }
        }
    }
}

pub proof fn lemma_ext_prim_len(s: Seq<char>)
    ensures
        ext_prim(s).1.len() <= s.len(),
    decreases s.len(),
{
    if s.len() > 0 {
        let n = s[0];
        if !(is_ws(n) || n == ',' || n == '}' || n == ']') {
            lemma_ext_prim_len(s.skip(1));
        }
    }
}

pub proof fn lemma_skip_past_colon_len(s: Seq<char>)
    ensures
        skip_past_colon(s).len() <= s.len(),
    decreases s.len(),
{
    if s.len() > 0 && s[0] != ':' {
        lemma_skip_past_colon_len(s.skip(1));
    }
}

pub proof fn lemma_key_split_len(s: Seq<char>)
    ensures
        key_split(s).1.len() <= s.len(),
    decreases s.len(),
{
    if s.len() > 0 {
        if s[0] != '"' {
            lemma_key_split_len(s.skip(1));
        } else {
            lemma_skip_past_colon_len(s.skip(1));
        }
    }
}

pub proof fn lemma_value_split_len(s: Seq<char>)
    ensures
        value_split(s).1.len() <= s.len(),
        s.len() > 0 ==> value_split(s).1.len() < s.len(),
    decreases s.len(),
{
    if s.len() > 0 {
        if s[0] == ' ' || s[0] == ',' {
            lemma_value_split_len(s.skip(1));
        } else if s[0] == '"' {
            lemma_ext_string_len(s.skip(1), false);
        } else if s[0] == '{' {
            lemma_ext_delim_len(s.skip(1), 1, false, false, '{', '}');
        } else if s[0] == '[' {
            lemma_ext_delim_len(s.skip(1), 1, false, false, '[', ']');
        } else {
            lemma_ext_prim_len(s.skip(1));
        }
    }
}

/// The key/raw-value pairs scanned from object text: everything up to the
/// next quote is skipped, then a key and a raw value are read, repeatedly.
pub open spec fn obj_entries(s: Seq<char>) -> Seq<(Seq<char>, Seq<char>)>
    decreases s.len(),
    via obj_entries_decreases
{
    if s.len() == 0 {
        Seq::empty()
    } else if s[0] == '"' {
        let k = key_split(s.skip(1));
        let v = value_split(k.1);
        seq![(k.0, v.0)] + obj_entries(v.1)
    } else {
        obj_entries(s.skip(1))
    }
}

#[via_fn]
proof fn obj_entries_decreases(s: Seq<char>) {
    if s.len() > 0 && s[0] == '"' {
        lemma_key_split_len(s.skip(1));
        lemma_value_split_len(key_split(s.skip(1)).1);
    }
}

/// Leading whitespace and opening brackets dropped before array items are
/// scanned.
pub open spec fn arr_skip(s: Seq<char>) -> Seq<char>
    decreases s.len(),
{
    if s.len() > 0 && (is_ws(s[0]) || s[0] == '[') {
        arr_skip(s.skip(1))
    } else {
        s
    }
}

/// The raw values scanned from array text: closing brackets are skipped,
/// anything else starts a value.
pub open spec fn arr_items(s: Seq<char>) -> Seq<Seq<char>>
    decreases s.len(),
    via arr_items_decreases
{
    if s.len() == 0 {
        Seq::empty()
    } else if s[0] == ']' {
        arr_items(s.skip(1))
    } else {
        let v = value_split(s);
        seq![v.0] + arr_items(v.1)
    }
}

#[via_fn]
proof fn arr_items_decreases(s: Seq<char>) {
    if s.len() > 0 && s[0] != ']' {
        lemma_value_split_len(s);
    }
}

/// The mapping described by a sequence of key/value pairs, a later pair
/// overriding an earlier one with the same key.
pub open spec fn entries_map(es: Seq<(Seq<char>, Seq<char>)>) -> Map<Seq<char>, Seq<char>>
    decreases es.len(),
{
    if es.len() == 0 {
        Map::empty()
    } else {
        entries_map(es.drop_last()).insert(es.last().0, es.last().1)
    }
}

// ---------------------------------------------------------------------------
// Executable scanner
// ---------------------------------------------------------------------------
/// Scans a string body starting at `from`, returning the scanned
/// characters and the position of the rest.
fn ext_string_exec(s: &Vec<char>, from: usize) -> (res: (Vec<char>, usize))
    requires
        from <= s.len(),
    ensures
        from <= res.1 <= s.len(),
        res.0@ == ext_string(s@.skip(from as int), false).0,
        s@.skip(res.1 as int) == ext_string(s@.skip(from as int), false).1,
{
    let mut out: Vec<char> = Vec::new();
    let mut i: usize = from;
    let mut esc: bool = false;
    let ghost whole = ext_string(s@.skip(from as int), false);
    while i < s.len()
        invariant
            from <= i <= s.len(),
            whole == ext_string(s@.skip(from as int), false),
            whole.0 == out@ + ext_string(s@.skip(i as int), esc).0,
            whole.1 == ext_string(s@.skip(i as int), esc).1,
        decreases s.len() - i,
    {
        let ghost rem = s@.skip(i as int);
        proof {
            assert(rem[0] == s@[i as int]);
            assert(rem.skip(1) =~= s@.skip(i + 1));
        }
        let c: char = s[i];
        if c == '"' && !esc {
            out.push(c);
            proof {
                assert(whole.0 =~= out@);
            }
            return (out, i + 1);
        }
        out.push(c);
        esc = c == '\\' && !esc;
        i = i + 1;
        proof {
            let r = ext_string(s@.skip(i as int), esc);
            assert(whole.0 =~= out@ + r.0);
        }
    }
    proof {
        assert(s@.skip(i as int) =~= Seq::<char>::empty());
        assert(ext_string(Seq::<char>::empty(), esc).0 =~= Seq::<char>::empty());
        assert(whole.0 =~= out@);
    }
    (out, i)
}

/// Scans an object or array body starting at `from`, with whitespace
/// outside strings dropped and nesting tracked.
fn ext_delim_exec(s: &Vec<char>, from: usize, open: char, close: char) -> (res: (Vec<char>, usize))
    requires
        from <= s.len(),
    ensures
        from <= res.1 <= s.len(),
        res.0@ == ext_delim(s@.skip(from as int), 1, false, false, open, close).0,
        s@.skip(res.1 as int) == ext_delim(s@.skip(from as int), 1, false, false, open, close).1,
{
    let mut out: Vec<char> = Vec::new();
    let mut i: usize = from;
    let mut esc: bool = false;
    let mut in_str: bool = false;
    let mut depth: u128 = 1;
    let ghost whole = ext_delim(s@.skip(from as int), 1, false, false, open, close);
    while i < s.len()
        invariant
            from <= i <= s.len(),
            1 <= depth <= 1 + i - from,
            whole == ext_delim(s@.skip(from as int), 1, false, false, open, close),
            whole.0 == out@ + ext_delim(
                s@.skip(i as int),
                depth as int,
                in_str,
                esc,
                open,
                close,
            ).0,
            whole.1 == ext_delim(s@.skip(i as int), depth as int, in_str, esc, open, close).1,
        decreases s.len() - i,
    {
        let ghost rem = s@.skip(i as int);
        proof {
            assert(rem[0] == s@[i as int]);
            assert(rem.skip(1) =~= s@.skip(i + 1));
        }
        let c: char = s[i];
        let ins: bool = if c == '"' && !esc {
            !in_str
        } else {
            in_str
        };
        let esc2: bool = c == '\\' && !esc;
        if !ins && is_ws_exec(c) {
            in_str = ins;
            esc = esc2;
            i = i + 1;
        } else {
            let d2: u128 = if ins {
                depth
            } else if c == open {
                depth + 1
            } else if c == close {
                depth - 1
            } else {
                depth
            };
            out.push(c);
            if d2 == 0 {
                proof {
                    assert(whole.0 =~= out@);
                }
                return (out, i + 1);
            }
            let ghost prev_out = out@;
            in_str = ins;
            esc = esc2;
            depth = d2;
            i = i + 1;
            proof {
                let r = ext_delim(s@.skip(i as int), depth as int, in_str, esc, open, close);
                assert(whole.0 =~= out@ + r.0);
            }
        }
    }
    proof {
        assert(s@.skip(i as int) =~= Seq::<char>::empty());
        assert(whole.0 =~= out@);
    }
    (out, i)
}

/// Scans a primitive token starting at `from`.
fn ext_prim_exec(s: &Vec<char>, from: usize) -> (res: (Vec<char>, usize))
    requires
        from <= s.len(),
    ensures
        from <= res.1 <= s.len(),
        res.0@ == ext_prim(s@.skip(from as int)).0,
        s@.skip(res.1 as int) == ext_prim(s@.skip(from as int)).1,
{
    let mut out: Vec<char> = Vec::new();
    let mut i: usize = from;
    let ghost whole = ext_prim(s@.skip(from as int));
    while i < s.len()
        invariant
            from <= i <= s.len(),
            whole == ext_prim(s@.skip(from as int)),
            whole.0 == out@ + ext_prim(s@.skip(i as int)).0,
            whole.1 == ext_prim(s@.skip(i as int)).1,
        decreases s.len() - i,
    {
        let ghost rem = s@.skip(i as int);
        proof {
            assert(rem[0] == s@[i as int]);
            assert(rem.skip(1) =~= s@.skip(i + 1));
        }
        let c: char = s[i];
        if is_ws_exec(c) || c == ',' || c == '}' || c == ']' {
            proof {
                assert(whole.0 =~= out@);
            }
            return (out, i + 1);
        }
        out.push(c);
        i = i + 1;
        proof {
            let r = ext_prim(s@.skip(i as int));
            assert(whole.0 =~= out@ + r.0);
        }
    }
    proof {
        assert(s@.skip(i as int) =~= Seq::<char>::empty());
        assert(whole.0 =~= out@);
    }
    (out, i)
}

/// Reads an object key starting at `from`: characters up to a quote, then
/// everything up to and including the next colon is skipped.
fn derive_key_exec(s: &Vec<char>, from: usize) -> (res: (Vec<char>, usize))
    requires
        from <= s.len(),
    ensures
        from <= res.1 <= s.len(),
        res.0@ == key_split(s@.skip(from as int)).0,
        s@.skip(res.1 as int) == key_split(s@.skip(from as int)).1,
{
    let mut out: Vec<char> = Vec::new();
    let mut i: usize = from;
    let ghost whole = key_split(s@.skip(from as int));
    while i < s.len()
        invariant
            from <= i <= s.len(),
            whole == key_split(s@.skip(from as int)),
            whole.0 == out@ + key_split(s@.skip(i as int)).0,
            whole.1 == key_split(s@.skip(i as int)).1,
        decreases s.len() - i,
    {
        let ghost rem = s@.skip(i as int);
        proof {
            assert(rem[0] == s@[i as int]);
            assert(rem.skip(1) =~= s@.skip(i + 1));
        }
        let c: char = s[i];
        if c != '"' {
            out.push(c);
            i = i + 1;
            proof {
                let r = key_split(s@.skip(i as int));
                assert(whole.0 =~= out@ + r.0);
            }
        } else {
            proof {
                assert(whole.0 =~= out@);
                assert(whole.1 == skip_past_colon(s@.skip(i + 1)));
            }
            // Skip everything up to and including the colon.
            let mut j: usize = i + 1;
            while j < s.len()
                invariant
                    from <= j <= s.len(),
                    key_split(s@.skip(from as int)).0 == out@,
                    key_split(s@.skip(from as int)).1 == skip_past_colon(s@.skip(j as int)),
                decreases s.len() - j,
            {
                let ghost remj = s@.skip(j as int);
                proof {
                    assert(remj[0] == s@[j as int]);
                    assert(remj.skip(1) =~= s@.skip(j + 1));
                }
                let t: char = s[j];
                j = j + 1;
                if t == ':' {
                    proof {
                        assert(key_split(s@.skip(from as int)).1 == s@.skip(j as int));
                    }
                    return (out, j);
                }
            }
            proof {
                assert(s@.skip(j as int) =~= Seq::<char>::empty());
                assert(skip_past_colon(s@.skip(j as int)) =~= Seq::<char>::empty());
                assert(key_split(s@.skip(from as int)).1 == s@.skip(j as int));
            }
            return (out, j);
        }
    }
    proof {
        assert(s@.skip(i as int) =~= Seq::<char>::empty());
        assert(whole.0 =~= out@);
    }
    (out, i)
}

/// Reads one raw value starting at `from`, skipping spaces and commas and
/// dispatching on the first significant character.
fn derive_value_exec(s: &Vec<char>, from: usize) -> (res: (Vec<char>, usize))
    requires
        from <= s.len(),
    ensures
        from <= res.1 <= s.len(),
        res.0@ == value_split(s@.skip(from as int)).0,
        s@.skip(res.1 as int) == value_split(s@.skip(from as int)).1,
{
    let ghost whole = value_split(s@.skip(from as int));
    let mut i: usize = from;
    while i < s.len()
        invariant
            from <= i <= s.len(),
            whole == value_split(s@.skip(from as int)),
            whole == value_split(s@.skip(i as int)),
        decreases s.len() - i,
    {
        let ghost rem = s@.skip(i as int);
        proof {
            assert(rem[0] == s@[i as int]);
            assert(rem.skip(1) =~= s@.skip(i + 1));
        }
        let c: char = s[i];
        if c == ' ' || c == ',' {
            i = i + 1;
        } else if c == '"' {
            let r = ext_string_exec(s, i + 1);
            let mut out: Vec<char> = Vec::new();
            out.push('"');
            append_chars(&mut out, &r.0);
            proof {
                assert(out@ =~= seq!['"'] + r.0@);
            }
            return (out, r.1);
        } else if c == '{' {
            let r = ext_delim_exec(s, i + 1, '{', '}');
            let mut out: Vec<char> = Vec::new();
            out.push('{');
            append_chars(&mut out, &r.0);
            proof {
                assert(out@ =~= seq!['{'] + r.0@);
            }
            return (out, r.1);
        } else if c == '[' {
            let r = ext_delim_exec(s, i + 1, '[', ']');
            let mut out: Vec<char> = Vec::new();
            out.push('[');
            append_chars(&mut out, &r.0);
            proof {
                assert(out@ =~= seq!['['] + r.0@);
            }
            return (out, r.1);
        } else {
            let r = ext_prim_exec(s, i + 1);
            let mut out: Vec<char> = Vec::new();
            out.push(c);
            append_chars(&mut out, &r.0);
            proof {
                assert(out@ =~= seq![rem[0]] + r.0@);
            }
            return (out, r.1);
        }
    }
    proof {
        assert(s@.skip(i as int) =~= Seq::<char>::empty());
    }
    (Vec::new(), i)
}

// ---------------------------------------------------------------------------
// String escaping
// ---------------------------------------------------------------------------
/// The JSON escape of one character: backslash, quote, newline and tab
/// become two-character escapes; everything else stands for itself.
pub open spec fn esc_char(c: char) -> Seq<char> {
    if c == '\\' {
        seq!['\\', '\\']
    } else if c == '"' {
        seq!['\\', '"']
    } else if c == '\n' {
        seq!['\\', 'n']
    } else if c == '\t' {
        seq!['\\', 't']
    } else {
        seq![c]
    }
}

/// The JSON escape of a whole sequence, character by character.
pub open spec fn escape_chars(s: Seq<char>) -> Seq<char>
    decreases s.len(),
{
    if s.len() == 0 {
        s
    } else {
        esc_char(s[0]) + escape_chars(s.skip(1))
    }
}

/// Undoes `escape_chars`: the four two-character escapes are folded back;
/// a backslash starting no recognized escape is kept as it stands.
pub open spec fn unescape_chars(s: Seq<char>) -> Seq<char>
    decreases s.len(),
{
    if s.len() == 0 {
        s
    } else if s[0] == '\\' && s.len() >= 2 {
        let c = s[1];
        if c == '\\' {
            seq!['\\'] + unescape_chars(s.skip(2))
        } else if c == '"' {
            seq!['"'] + unescape_chars(s.skip(2))
        } else if c == 'n' {
            seq!['\n'] + unescape_chars(s.skip(2))
        } else if c == 't' {
            seq!['\t'] + unescape_chars(s.skip(2))
        } else {
            seq!['\\'] + unescape_chars(s.skip(1))
        }
    } else {
        seq![s[0]] + unescape_chars(s.skip(1))
    }
}

/// Escapes a character vector for embedding in a JSON string literal.
pub fn escape_chars_exec(s: &Vec<char>) -> (r: Vec<char>)
    ensures
        r@ == escape_chars(s@),
{
    let mut out: Vec<char> = Vec::new();
    let mut i: usize = 0;
    proof {
        assert(s@.skip(0) =~= s@);
    }
    while i < s.len()
        invariant
            i <= s.len(),
            escape_chars(s@) == out@ + escape_chars(s@.skip(i as int)),
        decreases s.len() - i,
    {
        let ghost rem = s@.skip(i as int);
        proof {
            assert(rem[0] == s@[i as int]);
            assert(rem.skip(1) =~= s@.skip(i + 1));
        }
        let c: char = s[i];
        if c == '\\' {
            out.push('\\');
            out.push('\\');
        } else if c == '"' {
            out.push('\\');
            out.push('"');
        } else if c == '\n' {
            out.push('\\');
            out.push('n');
        } else if c == '\t' {
            out.push('\\');
            out.push('t');
        } else {
            out.push(c);
        }
        i = i + 1;
        proof {
            assert(escape_chars(s@) =~= out@ + escape_chars(s@.skip(i as int)));
        }
    }
    proof {
        assert(s@.skip(i as int) =~= Seq::<char>::empty());
        assert(out@ + Seq::<char>::empty() =~= out@);
    }
    out
}

/// Unescapes a character vector taken from a JSON string literal body.
pub fn unescape_chars_exec(s: &Vec<char>) -> (r: Vec<char>)
    ensures
        r@ == unescape_chars(s@),
{
    let mut out: Vec<char> = Vec::new();
    let mut i: usize = 0;
    proof {
        assert(s@.skip(0) =~= s@);
    }
    while i < s.len()
        invariant
            i <= s.len(),
            unescape_chars(s@) == out@ + unescape_chars(s@.skip(i as int)),
        decreases s.len() - i,
    {
        let ghost rem = s@.skip(i as int);
        proof {
            assert(rem[0] == s@[i as int]);
            assert(rem.skip(1) =~= s@.skip(i + 1));
            if rem.len() >= 2 {
                assert(rem[1] == s@[i + 1]);
                assert(rem.skip(2) =~= s@.skip(i + 2));
            }
        }
        let c: char = s[i];
        if c == '\\' && i + 1 < s.len() {
            let d: char = s[i + 1];
            if d == '\\' {
                out.push('\\');
                i = i + 2;
            } else if d == '"' {
                out.push('"');
                i = i + 2;
            } else if d == 'n' {
                out.push('\n');
                i = i + 2;
            } else if d == 't' {
                out.push('\t');
                i = i + 2;
            } else {
                out.push('\\');
                i = i + 1;
            }
        } else {
            out.push(c);
            i = i + 1;
        }
        proof {
            assert(unescape_chars(s@) =~= out@ + unescape_chars(s@.skip(i as int)));
        }
    }
    proof {
        assert(s@.skip(i as int) =~= Seq::<char>::empty());
        assert(out@ + Seq::<char>::empty() =~= out@);
    }
    out
}

// ---------------------------------------------------------------------------
// Entry maps
// ---------------------------------------------------------------------------
/// No two entries share a key.
pub open spec fn distinct_keys(es: Seq<(Seq<char>, Seq<char>)>) -> bool {
    forall|i: int, j: int|
        0 <= i < j < es.len() ==> (#[trigger] es[i]).0 != (#[trigger] es[j]).0
}

/// A key is in the map exactly when some entry carries it.
pub proof fn lemma_entries_map_lookup(es: Seq<(Seq<char>, Seq<char>)>, k: Seq<char>)
    ensures
        entries_map(es).contains_key(k) <==> exists|i: int|
            0 <= i < es.len() && (#[trigger] es[i]).0 == k,
    decreases es.len(),
{
    if es.len() > 0 {
        lemma_entries_map_lookup(es.drop_last(), k);
        if es.last().0 == k {
            assert(es[es.len() - 1].0 == k);
        } else {
            if entries_map(es).contains_key(k) {
                let dl = es.drop_last();
                let i = choose|i: int| 0 <= i < dl.len() && (#[trigger] dl[i]).0 == k;
                assert(es[i].0 == k);
            }
            if exists|i: int| 0 <= i < es.len() && (#[trigger] es[i]).0 == k {
                let i = choose|i: int| 0 <= i < es.len() && (#[trigger] es[i]).0 == k;
                assert(i < es.len() - 1);
                assert(es.drop_last()[i].0 == k);
            }
        }
    }
}

/// With distinct keys, the map sends each entry's key to its value.
pub proof fn lemma_entries_map_at(es: Seq<(Seq<char>, Seq<char>)>, i: int)
    requires
        distinct_keys(es),
        0 <= i < es.len(),
    ensures
        entries_map(es).contains_key(es[i].0),
        entries_map(es)[es[i].0] == es[i].1,
    decreases es.len(),
{
    if i == es.len() - 1 {
    } else {
        assert(distinct_keys(es.drop_last())) by {
            assert(forall|a: int, b: int|
                0 <= a < b < es.len() - 1 ==> (#[trigger] es.drop_last()[a]).0 != (
                #[trigger] es.drop_last()[b]).0) by {
                assert(forall|a: int|
                    0 <= a < es.len() - 1 ==> #[trigger] es.drop_last()[a] == es[a]);
            }
        }
        assert(es.drop_last()[i] == es[i]);
        lemma_entries_map_at(es.drop_last(), i);
        assert(es[i].0 != es.last().0);
    }
}

/// Updating the entry that carries `k` updates the map at `k` alone.
pub proof fn lemma_entries_map_update(
    es: Seq<(Seq<char>, Seq<char>)>,
    i: int,
    k: Seq<char>,
    v: Seq<char>,
)
    requires
        distinct_keys(es),
        0 <= i < es.len(),
        es[i].0 == k,
    ensures
        entries_map(es.update(i, (k, v))) == entries_map(es).insert(k, v),
    decreases es.len(),
{
    let es2 = es.update(i, (k, v));
    if i == es.len() - 1 {
        assert(es2.drop_last() =~= es.drop_last());
        assert(es2.last() == (k, v));
        assert(entries_map(es.drop_last()).insert(es.last().0, es.last().1).insert(k, v)
            =~= entries_map(es.drop_last()).insert(k, v));
    } else {
        assert(distinct_keys(es.drop_last())) by {
            assert(forall|a: int|
                0 <= a < es.len() - 1 ==> #[trigger] es.drop_last()[a] == es[a]);
        }
        assert(es.drop_last()[i] == es[i]);
        lemma_entries_map_update(es.drop_last(), i, k, v);
        assert(es2.drop_last() =~= es.drop_last().update(i, (k, v)));
        assert(es2.last() == es.last());
        assert(es.last().0 != k);
        assert(entries_map(es.drop_last()).insert(k, v).insert(es.last().0, es.last().1)
            =~= entries_map(es.drop_last()).insert(es.last().0, es.last().1).insert(k, v));
    }
}

/// A pair stored into an entry list: an existing key keeps its place and
/// takes the new value; a new key goes to the end.
pub open spec fn entries_put(
    es: Seq<(Seq<char>, Seq<char>)>,
    k: Seq<char>,
    v: Seq<char>,
) -> Seq<(Seq<char>, Seq<char>)>
    decreases es.len(),
{
    if es.len() == 0 {
        seq![(k, v)]
    } else if es[0].0 == k {
        seq![(k, v)] + es.skip(1)
    } else {
        seq![es[0]] + entries_put(es.skip(1), k, v)
    }
}

/// The entry list built by storing pairs front to back: keys keep their
/// first-occurrence position and their last value.
pub open spec fn entries_fold(
    pairs: Seq<(Seq<char>, Seq<char>)>,
    acc: Seq<(Seq<char>, Seq<char>)>,
) -> Seq<(Seq<char>, Seq<char>)>
    decreases pairs.len(),
{
    if pairs.len() == 0 {
        acc
    } else {
        entries_fold(pairs.skip(1), entries_put(acc, pairs[0].0, pairs[0].1))
    }
}

/// `entries_put` lands where the key already sits, or at the end.
pub proof fn lemma_entries_put_at(es: Seq<(Seq<char>, Seq<char>)>, k: Seq<char>, v: Seq<char>, i: int)
    requires
        0 <= i <= es.len(),
        forall|j: int| 0 <= j < i ==> (#[trigger] es[j]).0 != k,
        i < es.len() ==> es[i].0 == k,
    ensures
        entries_put(es, k, v) == (if i < es.len() {
            es.take(i) + seq![(k, v)] + es.skip(i + 1)
        } else {
            es.push((k, v))
        }),
    decreases i,
{
    if i == 0 {
        if es.len() == 0 {
            assert(entries_put(es, k, v) =~= es.push((k, v)));
        } else {
            assert(es[0].0 == k);
            assert(entries_put(es, k, v) =~= es.take(0) + seq![(k, v)] + es.skip(1));
        }
    } else {
        assert(es[0].0 != k);
        let tl = es.skip(1);
        assert(forall|j: int| 0 <= j < i - 1 ==> (#[trigger] tl[j]).0 != k) by {
            assert(forall|j: int| 0 <= j < es.len() - 1 ==> #[trigger] tl[j] == es[j + 1]);
        }
        assert(i - 1 < tl.len() ==> tl[i - 1].0 == k) by {
            if i - 1 < tl.len() {
                assert(tl[i - 1] == es[i]);
            }
        }
        lemma_entries_put_at(tl, k, v, i - 1);
        if i < es.len() {
            assert(tl.take(i - 1) =~= es.take(i).skip(1));
            assert(tl.skip(i) =~= es.skip(i + 1));
            assert(es.take(i)[0] == es[0]);
            assert(entries_put(es, k, v) =~= es.take(i) + seq![(k, v)] + es.skip(i + 1));
        } else {
            assert(entries_put(es, k, v) =~= es.push((k, v)));
        }
    }
}

/// Folding one more pair stores it into the folded list.
pub proof fn lemma_entries_fold_push(
    pairs: Seq<(Seq<char>, Seq<char>)>,
    acc: Seq<(Seq<char>, Seq<char>)>,
    p: (Seq<char>, Seq<char>),
)
    ensures
        entries_fold(pairs.push(p), acc) == entries_put(entries_fold(pairs, acc), p.0, p.1),
    decreases pairs.len(),
{
    let p2 = pairs.push(p);
    if pairs.len() == 0 {
        assert(p2[0] == p);
        assert(p2.skip(1) =~= Seq::<(Seq<char>, Seq<char>)>::empty());
        assert(entries_fold(p2.skip(1), entries_put(acc, p.0, p.1)) == entries_put(
            acc,
            p.0,
            p.1,
        ));
    } else {
        assert(p2[0] == pairs[0]);
        assert(p2.skip(1) =~= pairs.skip(1).push(p));
        lemma_entries_fold_push(pairs.skip(1), entries_put(acc, pairs[0].0, pairs[0].1), p);
    }
}

// ---------------------------------------------------------------------------
// JsonObject and JsonArray
// ---------------------------------------------------------------------------
/// Why a typed retrieval failed: the key was absent, or the raw slice did
/// not parse at the requested type (the second field names that type).
#[derive(Debug)]
pub enum JsonParseError {
    NotFound(String),
    InvalidType(String, &'static str),
}

/// A parsed JSON object: a mapping from keys to raw, delimiter-bounded
/// value slices, converted to concrete types only on access.
#[derive(Debug)]
pub struct JsonObject {
    keys: Vec<(String, String)>,
}

impl JsonObject {
    /// The key/raw-value pairs, as character sequences.
    pub closed spec fn entries(&self) -> Seq<(Seq<char>, Seq<char>)> {
        self.keys@.map_values(|p: (String, String)| (p.0@, p.1@))
    }

    /// Well-formed: no key occurs twice.
    pub open spec fn wf(&self) -> bool {
        distinct_keys(self.entries())
    }
}

impl View for JsonObject {
    type V = Map<Seq<char>, Seq<char>>;

    open spec fn view(&self) -> Map<Seq<char>, Seq<char>> {
        entries_map(self.entries())
    }
}

impl JsonObject {
    /// Creates an empty JSON object, useful for building one from scratch.
    pub fn empty() -> (r: JsonObject)
        ensures
            r.wf(),
            r@ == Map::<Seq<char>, Seq<char>>::empty(),
            r.entries() == Seq::<(Seq<char>, Seq<char>)>::empty(),
    {
        let r = JsonObject { keys: Vec::new() };
        proof {
            assert(r.entries() =~= Seq::<(Seq<char>, Seq<char>)>::empty());
        }
        r
    }

    /// Stores a raw slice under a key, replacing any earlier slice there.
    fn set_raw(&mut self, key: String, value: String)
        requires
            old(self).wf(),
        ensures
            final(self).wf(),
            final(self)@ == old(self)@.insert(key@, value@),
            final(self).entries() == entries_put(old(self).entries(), key@, value@),
    {
        let ghost es = self.entries();
        let mut i: usize = 0;
        while i < self.keys.len()
            invariant
                i <= self.keys.len(),
                es == self.entries(),
                old(self).wf(),
                self == old(self),
                forall|j: int| 0 <= j < i ==> (#[trigger] es[j]).0 != key@,
            decreases self.keys.len() - i,
        {
            if self.keys[i].0 == key {
                proof {
                    assert(es[i as int].0 == key@);
                }
                self.keys[i] = (key, value);
                proof {
                    assert(self.entries() =~= es.update(i as int, (key@, value@)));
                    lemma_entries_map_update(es, i as int, key@, value@);
                    assert(distinct_keys(self.entries())) by {
                        assert(forall|a: int, b: int|
                            0 <= a < b < es.len() && a != i && b != i ==> (
                            #[trigger] es[a]).0 != (#[trigger] es[b]).0);
                    }
                    lemma_entries_put_at(es, key@, value@, i as int);
                    assert(self.entries() =~= es.take(i as int) + seq![(key@, value@)] + es.skip(
                        i + 1,
                    ));
                }
                return ;
            }
            proof {
                assert(es[i as int].0 != key@);
            }
            i = i + 1;
        }
        self.keys.push((key, value));
        proof {
            assert(self.entries() =~= es.push((key@, value@)));
            assert(self.entries().drop_last() =~= es);
            assert(distinct_keys(self.entries())) by {
                assert(forall|a: int|
                    0 <= a < es.len() ==> #[trigger] self.entries()[a] == es[a]);
                assert(self.entries().last().0 == key@);
            }
            lemma_entries_put_at(es, key@, value@, es.len() as int);
        }
    }

    /// Looks a key up, handing back the raw slice stored under it.
    fn get_raw(&self, key: &str) -> (r: Option<&String>)
        requires
            self.wf(),
        ensures
            match r {
                Some(v) => self@.contains_key(key@) && self@[key@] == v@,
                None => !self@.contains_key(key@),
            },
    {
        let k: String = key.to_owned();
        let ghost es = self.entries();
        let mut i: usize = 0;
        while i < self.keys.len()
            invariant
                i <= self.keys.len(),
                es == self.entries(),
                self.wf(),
                k@ == key@,
                forall|j: int| 0 <= j < i ==> (#[trigger] es[j]).0 != key@,
            decreases self.keys.len() - i,
        {
            if self.keys[i].0 == k {
                proof {
                    assert(es[i as int].0 == key@);
                    lemma_entries_map_at(es, i as int);
                }
                return Some(&self.keys[i].1);
            }
            proof {
                assert(es[i as int].0 != key@);
            }
            i = i + 1;
        }
        proof {
            lemma_entries_map_lookup(es, key@);
        }
        None
    }

    /// Builds a `JsonObject` from JSON text: the scanner walks the string
    /// and records each key with its raw value slice, a later duplicate
    /// key overriding an earlier one.
    pub fn from_string(json: &str) -> (r: JsonObject)
        ensures
            r.wf(),
            r@ == entries_map(obj_entries(json@)),
            r.entries() == entries_fold(obj_entries(json@), Seq::empty()),
    {
        let s: Vec<char> = str_to_chars(json);
        let mut r = JsonObject::empty();
        let mut i: usize = 0;
        let ghost mut done: Seq<(Seq<char>, Seq<char>)> = Seq::empty();
        proof {
            assert(s@.skip(0) =~= s@);
            assert(done + obj_entries(s@) =~= obj_entries(s@));
        }
        while i < s.len()
            invariant
                i <= s.len(),
                s@ == json@,
                r.wf(),
                r@ == entries_map(done),
                r.entries() == entries_fold(done, Seq::<(Seq<char>, Seq<char>)>::empty()),
                obj_entries(json@) == done + obj_entries(s@.skip(i as int)),
            decreases s.len() - i,
        {
            let ghost rem = s@.skip(i as int);
            proof {
                assert(rem[0] == s@[i as int]);
                assert(rem.skip(1) =~= s@.skip(i + 1));
            }
            let c: char = s[i];
            if c == '"' {
                let (kv, after_key) = derive_key_exec(&s, i + 1);
                let (vv, after_val) = derive_value_exec(&s, after_key);
                let ghost ks = key_split(rem.skip(1));
                let ghost vs = value_split(ks.1);
                proof {
                    assert(kv@ == ks.0);
                    assert(s@.skip(after_key as int) == ks.1);
                    assert(vv@ == vs.0);
                    assert(s@.skip(after_val as int) == vs.1);
                    assert(obj_entries(rem) =~= seq![(ks.0, vs.0)] + obj_entries(vs.1));
                }
                let key_s: String = chars_to_string(&kv);
                let val_s: String = chars_to_string(&vv);
                r.set_raw(key_s, val_s);
                proof {
                    let prev_done = done;
                    done = done.push((ks.0, vs.0));
                    assert(done.drop_last() =~= prev_done);
                    assert(entries_map(done) == entries_map(prev_done).insert(ks.0, vs.0));
                    lemma_entries_fold_push(
                        prev_done,
                        Seq::<(Seq<char>, Seq<char>)>::empty(),
                        (ks.0, vs.0),
                    );
                    assert(obj_entries(json@) =~= done + obj_entries(s@.skip(after_val as int)));
                }
                // Progress: the value scan never moves backwards.
                if after_val > i {
                    i = after_val;
                } else {
                    i = i + 1;
                    proof {
                        lemma_key_split_len(rem.skip(1));
                        lemma_value_split_len(ks.1);
                        assert(vs.1.len() < rem.len());
                        assert(false);
                    }
                }
            } else {
                i = i + 1;
                proof {
                    assert(obj_entries(rem) =~= obj_entries(s@.skip(i as int)));
                }
            }
        }
        proof {
            assert(s@.skip(i as int) =~= Seq::<char>::empty());
            assert(obj_entries(Seq::<char>::empty()) =~= Seq::<(Seq<char>, Seq<char>)>::empty());
            assert(obj_entries(json@) =~= done);
        }
        r
    }
}

/// A parsed JSON array: an ordered sequence of raw value slices,
/// converted to concrete types only on access.
#[derive(Debug)]
pub struct JsonArray {
    values: Vec<String>,
}

impl View for JsonArray {
    type V = Seq<Seq<char>>;

    closed spec fn view(&self) -> Seq<Seq<char>> {
        self.values@.map_values(|v: String| v@)
    }
}

impl JsonArray {
    /// Creates an empty JSON array, useful for building one from scratch.
    pub fn empty() -> (r: JsonArray)
        ensures
            r@ == Seq::<Seq<char>>::empty(),
    {
        let r = JsonArray { values: Vec::new() };
        proof {
            assert(r@ =~= Seq::<Seq<char>>::empty());
        }
        r
    }

    /// Builds a `JsonArray` from JSON text: leading whitespace and opening
    /// brackets are dropped, then raw value slices are scanned in order.
    pub fn from_string(json: &str) -> (r: JsonArray)
        ensures
            r@ == arr_items(arr_skip(json@)),
    {
        let s: Vec<char> = str_to_chars(json);
        let mut i: usize = 0;
        proof {
            assert(s@.skip(0) =~= s@);
        }
        loop
            invariant
                i <= s.len(),
                s@ == json@,
                arr_skip(json@) == arr_skip(s@.skip(i as int)),
            ensures
                i <= s.len(),
                arr_skip(json@) == s@.skip(i as int),
            decreases s.len() - i,
        {
            if i >= s.len() {
                proof {
                    assert(s@.skip(i as int) =~= Seq::<char>::empty());
                }
                break ;
            }
            let ghost rem = s@.skip(i as int);
            proof {
                assert(rem[0] == s@[i as int]);
                assert(rem.skip(1) =~= s@.skip(i + 1));
            }
            let c: char = s[i];
            if c == ' ' || c == '\t' || c == '\n' || c == '\r' || c == '[' {
                i = i + 1;
            } else {
                proof {
                    assert(arr_skip(rem) == rem);
                }
                break ;
            }
        }
        let mut values: Vec<String> = Vec::new();
        let ghost start = i as int;
        while i < s.len()
            invariant
                start <= i <= s.len(),
                s@ == json@,
                arr_skip(json@) == s@.skip(start),
                arr_items(arr_skip(json@)) == values@.map_values(|v: String| v@) + arr_items(
                    s@.skip(i as int),
                ),
            decreases s.len() - i,
        {
            let ghost rem = s@.skip(i as int);
            let ghost prev_vals = values@;
            proof {
                assert(rem[0] == s@[i as int]);
                assert(rem.skip(1) =~= s@.skip(i + 1));
            }
            let c: char = s[i];
            if c == ']' {
                i = i + 1;
                proof {
                    assert(arr_items(rem) =~= arr_items(s@.skip(i as int)));
                }
            } else {
                let (vv, after) = derive_value_exec(&s, i);
                let ghost vs = value_split(rem);
                proof {
                    assert(s@.skip(i as int) =~= rem);
                    assert(vv@ == vs.0);
                    assert(s@.skip(after as int) == vs.1);
                    assert(arr_items(rem) =~= seq![vs.0] + arr_items(vs.1));
                    lemma_value_split_len(rem);
                }
                let v_s: String = chars_to_string(&vv);
                values.push(v_s);
                proof {
                    assert(values@.map_values(|v: String| v@) =~= prev_vals.map_values(
                        |v: String| v@,
                    ) + seq![vs.0]);
                }
                if after > i {
                    i = after;
                } else {
                    proof {
                        assert(vs.1.len() < rem.len());
                        assert(false);
                    }
                    i = i + 1;
                }
                proof {
                    assert(arr_items(arr_skip(json@)) =~= values@.map_values(|v: String| v@)
                        + arr_items(s@.skip(i as int)));
                }
            }
        }
        proof {
            assert(s@.skip(i as int) =~= Seq::<char>::empty());
            assert(arr_items(Seq::<char>::empty()) =~= Seq::<Seq<char>>::empty());
            assert(arr_items(arr_skip(json@)) =~= values@.map_values(|v: String| v@));
        }
        JsonArray { values }
    }
}

// ---------------------------------------------------------------------------
// Typed serialization and retrieval
// ---------------------------------------------------------------------------
/// The raw slice stored under a key, if any.
pub open spec fn map_get(m: Map<Seq<char>, Seq<char>>, k: Seq<char>) -> Option<Seq<char>> {
    if m.contains_key(k) {
        Some(m[k])
    } else {
        None
    }
}

/// The raw slice at an index, if the index is in range.
pub open spec fn seq_get(s: Seq<Seq<char>>, i: int) -> Option<Seq<char>> {
    if 0 <= i < s.len() {
        Some(s[i])
    } else {
        None
    }
}

/// The character sequence behind an optional raw slice.
pub open spec fn opt_view(value: Option<&String>) -> Option<Seq<char>> {
    match value {
        Some(v) => Some(v@),
        None => None,
    }
}

/// Every raw item parses at `T`, giving exactly the elements of `xs`.
pub open spec fn items_parse_ok<T: JsonRetrieve>(items: Seq<Seq<char>>, xs: Seq<T>) -> bool {
    xs.len() == items.len() && (forall|i: int|
        0 <= i < items.len() ==> T::parse_rel(
            u_chars(i as nat),
            Some(items[i]),
            Ok(#[trigger] xs[i]),
        ))
}

/// Some raw item fails to parse at `T` with exactly this error.
pub open spec fn items_parse_err<T: JsonRetrieve>(items: Seq<Seq<char>>, e: JsonParseError) -> bool {
    exists|i: int|
        0 <= i < items.len() && T::parse_rel(u_chars(i as nat), Some(#[trigger] items[i]), Err(e))
}

/// The successful values of a sequence of parse outcomes, in order.
pub open spec fn ok_values<T>(outs: Seq<Result<T, JsonParseError>>) -> Seq<T>
    decreases outs.len(),
{
    if outs.len() == 0 {
        Seq::empty()
    } else {
        let rest = ok_values(outs.skip(1));
        match outs[0] {
            Ok(v) => seq![v] + rest,
            Err(_) => rest,
        }
    }
}

proof fn lemma_ok_values_push<T>(outs: Seq<Result<T, JsonParseError>>, o: Result<T, JsonParseError>)
    ensures
        ok_values(outs.push(o)) == (match o {
            Ok(v) => ok_values(outs).push(v),
            Err(_) => ok_values(outs),
        }),
    decreases outs.len(),
{
    let o2 = outs.push(o);
    if outs.len() == 0 {
        assert(o2[0] == o);
        assert(o2.skip(1) =~= Seq::<Result<T, JsonParseError>>::empty());
        assert(ok_values(o2.skip(1)) =~= Seq::<T>::empty());
        match o {
            Ok(v) => {
                assert(ok_values(o2) =~= ok_values(outs).push(v));
            }
            Err(_) => {
                assert(ok_values(o2) =~= ok_values(outs));
            }
        }
    } else {
        assert(o2[0] == outs[0]);
        assert(o2.skip(1) =~= outs.skip(1).push(o));
        lemma_ok_values_push(outs.skip(1), o);
        match outs[0] {
            Ok(h) => {
                match o {
                    Ok(v) => {
                        assert(ok_values(o2) =~= seq![h] + ok_values(outs.skip(1)).push(v));
                        assert(seq![h] + ok_values(outs.skip(1)).push(v) =~= ok_values(
                            outs,
                        ).push(v));
                    }
                    Err(_) => {
                        assert(ok_values(o2) =~= seq![h] + ok_values(outs.skip(1)));
                    }
                }
            }
            Err(_) => {
                match o {
                    Ok(v) => {
                        assert(ok_values(o2) =~= ok_values(outs.skip(1)).push(v));
                        assert(ok_values(outs.skip(1)).push(v) =~= ok_values(outs).push(v));
                    }
                    Err(_) => {
                        assert(ok_values(o2) =~= ok_values(outs.skip(1)));
                    }
                }
            }
        }
    }
}

/// The item at `i` is the first failure: it fails with exactly this
/// error, and every item before it parses — `pre` holds those parses.
pub open spec fn items_parse_err_at<T: JsonRetrieve>(
    items: Seq<Seq<char>>,
    i: int,
    pre: Seq<T>,
    e: JsonParseError,
) -> bool {
    0 <= i < items.len() && T::parse_rel(u_chars(i as nat), Some(items[i]), Err(e))
        && items_parse_ok::<T>(items.take(i), pre)
}

/// Conversion of a value to JSON text.  `to_json_spec` says which text;
/// `to_json` computes it.
pub trait ToJson {
    /// The JSON text this value renders to.
    spec fn to_json_spec(&self) -> Seq<char>;

    /// Renders this value as JSON text.
    fn to_json(&self) -> (r: String)
        ensures
            r@ == self.to_json_spec(),
    ;
}

/// Typed retrieval of a value from an optional raw JSON slice.
/// `parse_rel` relates the key, the slice and the outcome: absent slices
/// give `NotFound`, undecodable slices give `InvalidType`, and decodable
/// ones pin the value exactly.
pub trait JsonRetrieve: Sized {
    /// How an outcome relates to the raw slice it was parsed from.
    spec fn parse_rel(key: Seq<char>, value: Option<Seq<char>>, r: Result<Self, JsonParseError>) -> bool;

    /// Parses the raw slice at the requested type; `key` only labels
    /// errors.
    fn parse(key: String, value: Option<&String>) -> (r: Result<Self, JsonParseError>)
        ensures
            Self::parse_rel(key@, opt_view(value), r),
    ;
}

/// Conversion of a whole `JsonObject` into a value; implemented by
/// application types built from object fields.
pub trait FromJson: Sized {
    /// How an outcome relates to the object's key/raw-slice mapping.
    spec fn from_json_rel(m: Map<Seq<char>, Seq<char>>, r: Result<Self, JsonParseError>) -> bool;

    /// Builds the value from a parsed JSON object.
    fn from_json(json: &JsonObject) -> (r: Result<Self, JsonParseError>)
        requires
            json.wf(),
        ensures
            Self::from_json_rel(json@, r),
    ;
}

impl JsonObject {
    /// Returns the value under `key`, converted to `T`.
    pub fn get<T: JsonRetrieve>(&self, key: &str) -> (r: Result<T, JsonParseError>)
        requires
            self.wf(),
        ensures
            T::parse_rel(key@, map_get(self@, key@), r),
    {
        let raw = self.get_raw(key);
        T::parse(key.to_owned(), raw)
    }

    /// Stores `data` under `key` as JSON text, replacing any earlier
    /// value there.
    pub fn set<T: ToJson>(&mut self, key: &str, data: T)
        requires
            old(self).wf(),
        ensures
            final(self).wf(),
            final(self)@ == old(self)@.insert(key@, data.to_json_spec()),
            final(self).entries() == entries_put(
                old(self).entries(),
                key@,
                data.to_json_spec(),
            ),
    {
        let v = data.to_json();
        self.set_raw(key.to_owned(), v);
    }
}

impl JsonArray {
    /// Returns the value at `index`, converted to `T`.
    pub fn get<T: JsonRetrieve>(&self, index: usize) -> (r: Result<T, JsonParseError>)
        ensures
            T::parse_rel(u_chars(index as nat), seq_get(self@, index as int), r),
    {
        let key: String = {
            let kc = u64_to_chars(index as u64);
            chars_to_string(&kc)
        };
        if index < self.values.len() {
            T::parse(key, Some(&self.values[index]))
        } else {
            T::parse(key, None)
        }
    }

    /// Converts every element to `T`; a single failing element fails the
    /// whole conversion with that element's error.
    pub fn map<T: JsonRetrieve>(&self) -> (r: Result<Vec<T>, JsonParseError>)
        ensures
            r matches Ok(xs) ==> items_parse_ok::<T>(self@, xs@),
            r matches Err(e) ==> items_parse_err::<T>(self@, e),
            r matches Err(e) ==> exists|i: int, pre: Seq<T>|
                #[trigger] items_parse_err_at::<T>(self@, i, pre, e),
    {
        let mut build: Vec<T> = Vec::new();
        let mut i: usize = 0;
        while i < self.values.len()
            invariant
                i <= self.values.len(),
                build@.len() == i,
                forall|j: int|
                    0 <= j < i ==> T::parse_rel(
                        u_chars(j as nat),
                        Some(self@[j]),
                        Ok(#[trigger] build@[j]),
                    ),
            decreases self.values.len() - i,
        {
            let key: String = {
                let kc = u64_to_chars(i as u64);
                chars_to_string(&kc)
            };
            proof {
                assert(self@[i as int] == self.values@[i as int]@);
            }
            let pr = T::parse(key, Some(&self.values[i]));
            let ghost prg = pr;
            match pr {
                Ok(v) => {
                    build.push(v);
                }
                Err(e) => {
                    proof {
                        let ghost ee = prg->Err_0;
                        assert(T::parse_rel(u_chars(i as nat), Some(self@[i as int]), Err(ee)));
                        assert(items_parse_err::<T>(self@, ee));
                        assert(items_parse_ok::<T>(self@.take(i as int), build@)) by {
                            assert(forall|j: int|
                                0 <= j < i ==> #[trigger] self@.take(i as int)[j] == self@[j]);
                        }
                        assert(items_parse_err_at::<T>(self@, i as int, build@, ee));
                    }
                    return Err(e);
                }
            }
            i = i + 1;
        }
        proof {
            assert(items_parse_ok::<T>(self@, build@));
        }
        Ok(build)
    }

    /// Converts every element to `T`, silently dropping elements that do
    /// not parse: the result is the in-order subsequence of successful
    /// parses, one outcome per element.
    pub fn map_drop<T: JsonRetrieve>(&self) -> (r: Vec<T>)
        ensures
            exists|outs: Seq<Result<T, JsonParseError>>|
                #![trigger ok_values(outs)]
                outs.len() == self@.len() && (forall|j: int|
                    0 <= j < self@.len() ==> T::parse_rel(
                        u_chars(j as nat),
                        Some(self@[j]),
                        #[trigger] outs[j],
                    )) && r@ == ok_values(outs),
    {
        let mut build: Vec<T> = Vec::new();
        let mut i: usize = 0;
        let ghost mut outs: Seq<Result<T, JsonParseError>> = Seq::empty();
        proof {
            assert(ok_values(outs) =~= Seq::<T>::empty());
        }
        while i < self.values.len()
            invariant
                i <= self.values.len(),
                outs.len() == i,
                forall|j: int|
                    0 <= j < i ==> T::parse_rel(
                        u_chars(j as nat),
                        Some(self@[j]),
                        #[trigger] outs[j],
                    ),
                build@ == ok_values(outs),
            decreases self.values.len() - i,
        {
            let key: String = {
                let kc = u64_to_chars(i as u64);
                chars_to_string(&kc)
            };
            proof {
                assert(self@[i as int] == self.values@[i as int]@);
            }
            let pr = T::parse(key, Some(&self.values[i]));
            let ghost prg = pr;
            proof {
                lemma_ok_values_push(outs, prg);
            }
            match pr {
                Ok(v) => {
                    build.push(v);
                }
                Err(_) => {}
            }
            proof {
                outs = outs.push(prg);
            }
            i = i + 1;
        }
        build
    }
}

impl ToJson for String {
    open spec fn to_json_spec(&self) -> Seq<char> {
        seq!['"'] + escape_chars(self@) + seq!['"']
    }

    fn to_json(&self) -> (r: String) {
        let cs = str_to_chars(self.as_str());
        let esc = escape_chars_exec(&cs);
        let mut out: Vec<char> = Vec::new();
        out.push('"');
        append_chars(&mut out, &esc);
        out.push('"');
        proof {
            assert(out@ =~= seq!['"'] + escape_chars(self@) + seq!['"']);
        }
        chars_to_string(&out)
    }
}

impl ToJson for i32 {
    open spec fn to_json_spec(&self) -> Seq<char> {
        i_chars(*self as int)
    }

    fn to_json(&self) -> (r: String) {
        let cs = i64_to_chars(*self as i64);
        chars_to_string(&cs)
    }
}

impl ToJson for i64 {
    open spec fn to_json_spec(&self) -> Seq<char> {
        i_chars(*self as int)
    }

    fn to_json(&self) -> (r: String) {
        let cs = i64_to_chars(*self);
        chars_to_string(&cs)
    }
}

impl ToJson for u32 {
    open spec fn to_json_spec(&self) -> Seq<char> {
        u_chars(*self as nat)
    }

    fn to_json(&self) -> (r: String) {
        let cs = u64_to_chars(*self as u64);
        chars_to_string(&cs)
    }
}

impl ToJson for u64 {
    open spec fn to_json_spec(&self) -> Seq<char> {
        u_chars(*self as nat)
    }

    fn to_json(&self) -> (r: String) {
        let cs = u64_to_chars(*self);
        chars_to_string(&cs)
    }
}

impl ToJson for bool {
    open spec fn to_json_spec(&self) -> Seq<char> {
        if *self {
            seq!['t', 'r', 'u', 'e']
        } else {
            seq!['f', 'a', 'l', 's', 'e']
        }
    }

    fn to_json(&self) -> (r: String) {
        let mut out: Vec<char> = Vec::new();
        if *self {
            out.push('t');
            out.push('r');
            out.push('u');
            out.push('e');
            proof {
                assert(out@ =~= seq!['t', 'r', 'u', 'e']);
            }
        } else {
            out.push('f');
            out.push('a');
            out.push('l');
            out.push('s');
            out.push('e');
            proof {
                assert(out@ =~= seq!['f', 'a', 'l', 's', 'e']);
            }
        }
        chars_to_string(&out)
    }
}

impl<T: ToJson> ToJson for Vec<T> {
    open spec fn to_json_spec(&self) -> Seq<char> {
        seq!['['] + spec_join(self@.map_values(|x: T| x.to_json_spec()), seq![',']) + seq![']']
    }

    fn to_json(&self) -> (r: String) {
        let mut parts: Vec<Vec<char>> = Vec::new();
        let mut i: usize = 0;
        while i < self.len()
            invariant
                i <= self@.len(),
                parts@.len() == i,
                forall|j: int| 0 <= j < i ==> (#[trigger] parts@[j])@ == self@[j].to_json_spec(),
            decreases self@.len() - i,
        {
            let s = self[i].to_json();
            parts.push(str_to_chars(s.as_str()));
            i = i + 1;
        }
        proof {
            assert(parts@.map_values(|p: Vec<char>| p@) =~= self@.map_values(
                |x: T| x.to_json_spec(),
            ));
        }
        let mut sep: Vec<char> = Vec::new();
        sep.push(',');
        proof {
            assert(sep@ =~= seq![',']);
        }
        let joined = join_chars(&parts, &sep);
        let mut out: Vec<char> = Vec::new();
        out.push('[');
        append_chars(&mut out, &joined);
        out.push(']');
        proof {
            assert(out@ =~= seq!['['] + spec_join(
                self@.map_values(|x: T| x.to_json_spec()),
                seq![','],
            ) + seq![']']);
        }
        chars_to_string(&out)
    }
}

impl<T: ToJson> ToJson for Option<T> {
    open spec fn to_json_spec(&self) -> Seq<char> {
        match self {
            Some(x) => x.to_json_spec(),
            None => seq!['n', 'u', 'l', 'l'],
        }
    }

    fn to_json(&self) -> (r: String) {
        match self {
            Some(x) => x.to_json(),
            None => {
                let mut out: Vec<char> = Vec::new();
                out.push('n');
                out.push('u');
                out.push('l');
                out.push('l');
                proof {
                    assert(out@ =~= seq!['n', 'u', 'l', 'l']);
                }
                chars_to_string(&out)
            }
        }
    }
}

/// How one object entry renders inside serialized object text.
pub open spec fn render_entry(e: (Seq<char>, Seq<char>)) -> Seq<char> {
    seq!['"'] + e.0 + seq!['"', ':'] + e.1
}

impl ToJson for JsonObject {
    open spec fn to_json_spec(&self) -> Seq<char> {
        seq!['{'] + spec_join(
            self.entries().map_values(|e: (Seq<char>, Seq<char>)| render_entry(e)),
            seq![','],
        ) + seq!['}']
    }

    fn to_json(&self) -> (r: String) {
        let mut parts: Vec<Vec<char>> = Vec::new();
        let mut i: usize = 0;
        while i < self.keys.len()
            invariant
                i <= self.keys.len(),
                parts@.len() == i,
                forall|j: int|
                    0 <= j < i ==> (#[trigger] parts@[j])@ == render_entry(self.entries()[j]),
            decreases self.keys.len() - i,
        {
            let kc = str_to_chars(self.keys[i].0.as_str());
            let vc = str_to_chars(self.keys[i].1.as_str());
            let mut part: Vec<char> = Vec::new();
            part.push('"');
            append_chars(&mut part, &kc);
            part.push('"');
            part.push(':');
            append_chars(&mut part, &vc);
            proof {
                assert(self.entries()[i as int] == (kc@, vc@));
                assert(part@ =~= render_entry((kc@, vc@)));
            }
            parts.push(part);
            i = i + 1;
        }
        proof {
            assert(parts@.map_values(|p: Vec<char>| p@) =~= self.entries().map_values(
                |e: (Seq<char>, Seq<char>)| render_entry(e),
            ));
        }
        let mut sep: Vec<char> = Vec::new();
        sep.push(',');
        proof {
            assert(sep@ =~= seq![',']);
        }
        let joined = join_chars(&parts, &sep);
        let mut out: Vec<char> = Vec::new();
        out.push('{');
        append_chars(&mut out, &joined);
        out.push('}');
        proof {
            assert(out@ =~= seq!['{'] + spec_join(
                self.entries().map_values(|e: (Seq<char>, Seq<char>)| render_entry(e)),
                seq![','],
            ) + seq!['}']);
        }
        chars_to_string(&out)
    }
}

impl ToJson for JsonArray {
    open spec fn to_json_spec(&self) -> Seq<char> {
        seq!['['] + spec_join(self@, seq![',']) + seq![']']
    }

    fn to_json(&self) -> (r: String) {
        let mut parts: Vec<Vec<char>> = Vec::new();
        let mut i: usize = 0;
        while i < self.values.len()
            invariant
                i <= self.values.len(),
                parts@.len() == i,
                forall|j: int| 0 <= j < i ==> (#[trigger] parts@[j])@ == self@[j],
            decreases self.values.len() - i,
        {
            parts.push(str_to_chars(self.values[i].as_str()));
            i = i + 1;
        }
        proof {
            assert(parts@.map_values(|p: Vec<char>| p@) =~= self@);
        }
        let mut sep: Vec<char> = Vec::new();
        sep.push(',');
        proof {
            assert(sep@ =~= seq![',']);
        }
        let joined = join_chars(&parts, &sep);
        let mut out: Vec<char> = Vec::new();
        out.push('[');
        append_chars(&mut out, &joined);
        out.push(']');
        proof {
            assert(out@ =~= seq!['['] + spec_join(self@, seq![',']) + seq![']']);
        }
        chars_to_string(&out)
    }
}

impl JsonRetrieve for String {
    open spec fn parse_rel(
        key: Seq<char>,
        value: Option<Seq<char>>,
        r: Result<Self, JsonParseError>,
    ) -> bool {
        match value {
            None => r matches Err(JsonParseError::NotFound(k)) && k@ == key,
            Some(v) => if v.len() < 2 {
                r matches Err(JsonParseError::InvalidType(k, t)) && k@ == key && t@ == "String"@
            } else {
                r matches Ok(s) && s@ == unescape_chars(v.subrange(1, v.len() - 1))
            },
        }
    }

    fn parse(key: String, value: Option<&String>) -> (r: Result<Self, JsonParseError>) {
        match value {
            None => Err(JsonParseError::NotFound(key)),
            Some(v) => {
                let cs = str_to_chars(v.as_str());
                if cs.len() < 2 {
                    Err(JsonParseError::InvalidType(key, "String"))
                } else {
                    let inner = sub_chars(&cs, 1, cs.len() - 1);
                    let un = unescape_chars_exec(&inner);
                    Ok(chars_to_string(&un))
                }
            }
        }
    }
}

impl JsonRetrieve for i32 {
    open spec fn parse_rel(
        key: Seq<char>,
        value: Option<Seq<char>>,
        r: Result<Self, JsonParseError>,
    ) -> bool {
        match value {
            None => r matches Err(JsonParseError::NotFound(k)) && k@ == key,
            Some(v) => if is_int_chars(v) && i32::MIN <= int_chars_val(v) <= i32::MAX {
                r matches Ok(x) && x as int == int_chars_val(v)
            } else {
                r matches Err(JsonParseError::InvalidType(k, t)) && k@ == key && t@ == "i32"@
            },
        }
    }

    fn parse(key: String, value: Option<&String>) -> (r: Result<Self, JsonParseError>) {
        match value {
            None => Err(JsonParseError::NotFound(key)),
            Some(v) => {
                let cs = str_to_chars(v.as_str());
                match parse_i32_chars(&cs) {
                    Some(x) => Ok(x),
                    None => Err(JsonParseError::InvalidType(key, "i32")),
                }
            }
        }
    }
}

impl JsonRetrieve for i64 {
    open spec fn parse_rel(
        key: Seq<char>,
        value: Option<Seq<char>>,
        r: Result<Self, JsonParseError>,
    ) -> bool {
        match value {
            None => r matches Err(JsonParseError::NotFound(k)) && k@ == key,
            Some(v) => if is_int_chars(v) && i64::MIN <= int_chars_val(v) <= i64::MAX {
                r matches Ok(x) && x as int == int_chars_val(v)
            } else {
                r matches Err(JsonParseError::InvalidType(k, t)) && k@ == key && t@ == "i64"@
            },
        }
    }

    fn parse(key: String, value: Option<&String>) -> (r: Result<Self, JsonParseError>) {
        match value {
            None => Err(JsonParseError::NotFound(key)),
            Some(v) => {
                let cs = str_to_chars(v.as_str());
                match parse_i64_chars(&cs) {
                    Some(x) => Ok(x),
                    None => Err(JsonParseError::InvalidType(key, "i64")),
                }
            }
        }
    }
}

impl JsonRetrieve for bool {
    open spec fn parse_rel(
        key: Seq<char>,
        value: Option<Seq<char>>,
        r: Result<Self, JsonParseError>,
    ) -> bool {
        match value {
            None => r matches Err(JsonParseError::NotFound(k)) && k@ == key,
            Some(v) => if v == seq!['t', 'r', 'u', 'e'] {
                r matches Ok(b) && b == true
            } else if v == seq!['f', 'a', 'l', 's', 'e'] {
                r matches Ok(b) && b == false
            } else {
                r matches Err(JsonParseError::InvalidType(k, t)) && k@ == key && t@ == "bool"@
            },
        }
    }

    fn parse(key: String, value: Option<&String>) -> (r: Result<Self, JsonParseError>) {
        match value {
            None => Err(JsonParseError::NotFound(key)),
            Some(v) => {
                let cs = str_to_chars(v.as_str());
                let mut tv: Vec<char> = Vec::new();
                tv.push('t');
                tv.push('r');
                tv.push('u');
                tv.push('e');
                proof {
                    assert(tv@ =~= seq!['t', 'r', 'u', 'e']);
                }
                if chars_eq(&cs, &tv) {
                    return Ok(true);
                }
                let mut fv: Vec<char> = Vec::new();
                fv.push('f');
                fv.push('a');
                fv.push('l');
                fv.push('s');
                fv.push('e');
                proof {
                    assert(fv@ =~= seq!['f', 'a', 'l', 's', 'e']);
                }
                if chars_eq(&cs, &fv) {
                    return Ok(false);
                }
                Err(JsonParseError::InvalidType(key, "bool"))
            }
        }
    }
}

impl<T: JsonRetrieve> JsonRetrieve for Vec<T> {
    open spec fn parse_rel(
        key: Seq<char>,
        value: Option<Seq<char>>,
        r: Result<Self, JsonParseError>,
    ) -> bool {
        match value {
            None => r matches Err(JsonParseError::NotFound(k)) && k@ == key,
            Some(v) => match r {
                Ok(xs) => items_parse_ok::<T>(arr_items(arr_skip(v)), xs@),
                Err(e) => items_parse_err::<T>(arr_items(arr_skip(v)), e),
            },
        }
    }

    fn parse(key: String, value: Option<&String>) -> (r: Result<Self, JsonParseError>) {
        match value {
            None => Err(JsonParseError::NotFound(key)),
            Some(v) => {
                let a = JsonArray::from_string(v.as_str());
                a.map()
            }
        }
    }
}

impl<T: JsonRetrieve> JsonRetrieve for Option<T> {
    open spec fn parse_rel(
        key: Seq<char>,
        value: Option<Seq<char>>,
        r: Result<Self, JsonParseError>,
    ) -> bool {
        match value {
            None => r matches Ok(o) && o is None,
            Some(v) => if v == seq!['n', 'u', 'l', 'l'] {
                r matches Ok(o) && o is None
            } else {
                match r {
                    Ok(o) => o matches Some(x) && T::parse_rel(key, Some(v), Ok(x)),
                    Err(e) => T::parse_rel(key, Some(v), Err(e)),
                }
            },
        }
    }

    fn parse(key: String, value: Option<&String>) -> (r: Result<Self, JsonParseError>) {
        match value {
            None => Ok(None),
            Some(v) => {
                let cs = str_to_chars(v.as_str());
                let mut nv: Vec<char> = Vec::new();
                nv.push('n');
                nv.push('u');
                nv.push('l');
                nv.push('l');
                proof {
                    assert(nv@ =~= seq!['n', 'u', 'l', 'l']);
                }
                if chars_eq(&cs, &nv) {
                    Ok(None)
                } else {
                    match T::parse(key, Some(v)) {
                        Ok(x) => Ok(Some(x)),
                        Err(e) => Err(e),
                    }
                }
            }
        }
    }
}

impl<T: FromJson> JsonRetrieve for T {
    open spec fn parse_rel(
        key: Seq<char>,
        value: Option<Seq<char>>,
        r: Result<Self, JsonParseError>,
    ) -> bool {
        match value {
            None => r matches Err(JsonParseError::NotFound(k)) && k@ == key,
            Some(v) => T::from_json_rel(entries_map(obj_entries(v)), r),
        }
    }

    fn parse(key: String, value: Option<&String>) -> (r: Result<Self, JsonParseError>) {
        match value {
            None => Err(JsonParseError::NotFound(key)),
            Some(v) => T::from_json(&JsonObject::from_string(v.as_str())),
        }
    }
}

impl JsonRetrieve for JsonObject {
    open spec fn parse_rel(
        key: Seq<char>,
        value: Option<Seq<char>>,
        r: Result<Self, JsonParseError>,
    ) -> bool {
        match value {
            None => r matches Err(JsonParseError::NotFound(k)) && k@ == key,
            Some(v) => r matches Ok(o) && o.wf() && o@ == entries_map(obj_entries(v)),
        }
    }

    fn parse(key: String, value: Option<&String>) -> (r: Result<Self, JsonParseError>) {
        match value {
            None => Err(JsonParseError::NotFound(key)),
            Some(v) => Ok(JsonObject::from_string(v.as_str())),
        }
    }
}

impl JsonRetrieve for JsonArray {
    open spec fn parse_rel(
        key: Seq<char>,
        value: Option<Seq<char>>,
        r: Result<Self, JsonParseError>,
    ) -> bool {
        match value {
            None => r matches Err(JsonParseError::NotFound(k)) && k@ == key,
            Some(v) => r matches Ok(a) && a@ == arr_items(arr_skip(v)),
        }
    }

    fn parse(key: String, value: Option<&String>) -> (r: Result<Self, JsonParseError>) {
        match value {
            None => Err(JsonParseError::NotFound(key)),
            Some(v) => Ok(JsonArray::from_string(v.as_str())),
        }
    }
}


// ---------------------------------------------------------------------------
// Round-trip laws
// ---------------------------------------------------------------------------
/// Rendering a natural number gives digits whose value is that number.
pub proof fn lemma_u_chars_value(n: nat)
    ensures
        all_digits(u_chars(n)),
        u_chars(n).len() >= 1,
        dec_val(u_chars(n)) == n,
        u_chars(n)[0] != '-' && u_chars(n)[0] != '+',
    decreases n,
{
    if n < 10 {
        let w = u_chars(n);
        assert(w =~= seq![crate::strutil::digit_char(n as int)]);
        assert(w.drop_last() =~= Seq::<char>::empty());
        assert(dec_val(w.drop_last()) == 0);
        assert(dec_val(w) == digit_val(w.last()));
        assert(digit_val(crate::strutil::digit_char(n as int)) == n);
        assert(crate::strutil::is_digit(w[0]));
    } else {
        lemma_u_chars_value(n / 10);
        let w = u_chars(n);
        assert(w =~= u_chars(n / 10) + seq![crate::strutil::digit_char((n % 10) as int)]);
        assert(w.drop_last() =~= u_chars(n / 10));
        assert(w.last() == crate::strutil::digit_char((n % 10) as int));
        assert(all_digits(w)) by {
            assert(forall|i: int|
                0 <= i < w.len() - 1 ==> w[i] == #[trigger] u_chars(n / 10)[i]);
        }
        assert(dec_val(w) == dec_val(u_chars(n / 10)) * 10 + digit_val(w.last()));
    }
}

/// Rendering an integer gives text the signed decimal parser reads back
/// to the same value.
pub proof fn lemma_i_chars_value(x: int)
    ensures
        is_int_chars(i_chars(x)),
        int_chars_val(i_chars(x)) == x,
{
    if x < 0 {
        lemma_u_chars_value((-x) as nat);
        let w = i_chars(x);
        assert(w =~= seq!['-'] + u_chars((-x) as nat));
        assert(w[0] == '-');
        assert(w.skip(1) =~= u_chars((-x) as nat));
    } else {
        lemma_u_chars_value(x as nat);
        assert(i_chars(x) == u_chars(x as nat));
    }
}

/// Unescaping undoes escaping: folding the escapes back gives exactly
/// the original characters.
pub proof fn lemma_unescape_escape(s: Seq<char>)
    ensures
        unescape_chars(escape_chars(s)) == s,
    decreases s.len(),
{
    if s.len() == 0 {
        assert(unescape_chars(escape_chars(s)) =~= s);
    } else {
        lemma_unescape_escape(s.skip(1));
        let c = s[0];
        let e = escape_chars(s);
        assert(e =~= esc_char(c) + escape_chars(s.skip(1)));
        if c == '\\' || c == '"' || c == '\n' || c == '\t' {
            assert(e.len() >= 2);
            assert(e[0] == '\\');
            assert(e[1] == esc_char(c)[1]);
            assert(e.skip(2) =~= escape_chars(s.skip(1)));
            assert(unescape_chars(e) =~= seq![c] + unescape_chars(escape_chars(s.skip(1))));
        } else {
            assert(e[0] == c);
            assert(e.skip(1) =~= escape_chars(s.skip(1)));
            if c == '\\' {
            } else {
                assert(unescape_chars(e) =~= seq![c] + unescape_chars(escape_chars(s.skip(1))));
            }
        }
        assert(seq![c] + s.skip(1) =~= s);
    }
}

/// Round-trip for strings: parsing the serialized text of any string
/// value yields the same characters, unescaped.
pub proof fn lemma_roundtrip_string(key: Seq<char>, v: Seq<char>, r: Result<String, JsonParseError>)
    requires
        String::parse_rel(key, Some(seq!['"'] + escape_chars(v) + seq!['"']), r),
    ensures
        r matches Ok(s) && s@ == v,
{
    let raw = seq!['"'] + escape_chars(v) + seq!['"'];
    assert(raw.len() >= 2);
    assert(raw.subrange(1, raw.len() - 1) =~= escape_chars(v));
    lemma_unescape_escape(v);
}

/// Round-trip for 32-bit integers: parsing the serialized text of any
/// value yields the value.
pub proof fn lemma_roundtrip_i32(key: Seq<char>, x: i32, r: Result<i32, JsonParseError>)
    requires
        i32::parse_rel(key, Some(i_chars(x as int)), r),
    ensures
        r matches Ok(y) && y == x,
{
    lemma_i_chars_value(x as int);
}

/// Round-trip for 64-bit integers: parsing the serialized text of any
/// value yields the value.
pub proof fn lemma_roundtrip_i64(key: Seq<char>, x: i64, r: Result<i64, JsonParseError>)
    requires
        i64::parse_rel(key, Some(i_chars(x as int)), r),
    ensures
        r matches Ok(y) && y == x,
{
    lemma_i_chars_value(x as int);
}

/// Round-trip for booleans: parsing the serialized text of either value
/// yields the value.
pub proof fn lemma_roundtrip_bool(key: Seq<char>, b: bool, r: Result<bool, JsonParseError>)
    requires
        bool::parse_rel(key, Some(b.to_json_spec()), r),
    ensures
        r matches Ok(y) && y == b,
{
    if b {
        assert(b.to_json_spec() == seq!['t', 'r', 'u', 'e']);
    } else {
        assert(b.to_json_spec() == seq!['f', 'a', 'l', 's', 'e']);
        assert(b.to_json_spec() != seq!['t', 'r', 'u', 'e']) by {
            assert(seq!['f', 'a', 'l', 's', 'e'].len() == 5);
        }
    }
}

/// Storing a value under a key and reading the same key back hands the
/// parser exactly the value's serialized text; with the round-trip
/// results above, typed retrieval then returns the stored value.
pub proof fn lemma_set_get_raw(m: Map<Seq<char>, Seq<char>>, k: Seq<char>, v: Seq<char>)
    ensures
        map_get(m.insert(k, v), k) == Some(v),
{
}


/// The string scanner never stops inside escaped text: scanning the
/// escape of any value runs to the closing quote and no further.
pub proof fn lemma_ext_string_escaped(v: Seq<char>, rest: Seq<char>)
    ensures
        ext_string(escape_chars(v) + seq!['"'] + rest, false) == (
            escape_chars(v) + seq!['"'],
            rest,
        ),
    decreases v.len(),
{
    let s = escape_chars(v) + seq!['"'] + rest;
    if v.len() == 0 {
        assert(escape_chars(v) =~= Seq::<char>::empty());
        assert(s =~= seq!['"'] + rest);
        assert(s[0] == '"');
        assert(s.skip(1) =~= rest);
        assert(ext_string(s, false).0 =~= escape_chars(v) + seq!['"']);
    } else {
        lemma_ext_string_escaped(v.skip(1), rest);
        let c = v[0];
        let e = esc_char(c);
        assert(escape_chars(v) =~= e + escape_chars(v.skip(1)));
        let tail = escape_chars(v.skip(1)) + seq!['"'] + rest;
        if c == '\\' || c == '"' || c == '\n' || c == '\t' {
            assert(e.len() == 2 && e[0] == '\\');
            assert(s[0] == '\\');
            assert(s.len() >= 2);
            assert(s[1] == e[1]);
            assert(s.skip(1)[0] == e[1]);
            assert(s.skip(2) =~= tail);
            assert(s.skip(1).skip(1) =~= s.skip(2));
            // First step: the backslash is pushed and arms the escape.
            assert(ext_string(s, false).0 =~= seq![s[0]] + ext_string(s.skip(1), true).0);
            // Second step: the escaped character is pushed, disarmed.
            assert(e[1] != '"' || true);
            assert(ext_string(s.skip(1), true).0 =~= seq![e[1]] + ext_string(s.skip(2), false).0);
            assert(ext_string(s, false).0 =~= escape_chars(v) + seq!['"']);
            assert(ext_string(s, false).1 == rest);
        } else {
            assert(e =~= seq![c]);
            assert(s[0] == c);
            assert(c != '"' && c != '\\');
            assert(s.skip(1) =~= tail);
            assert(ext_string(s, false).0 =~= seq![c] + ext_string(s.skip(1), false).0);
            assert(ext_string(s, false).0 =~= escape_chars(v) + seq!['"']);
            assert(ext_string(s, false).1 == rest);
        }
    }
}

/// The key scanner reads a quote-free key exactly: everything up to the
/// closing quote, then past the colon.
pub proof fn lemma_key_split_clean(k: Seq<char>, rest: Seq<char>)
    requires
        forall|i: int| 0 <= i < k.len() ==> k[i] != '"',
    ensures
        key_split(k + seq!['"', ':'] + rest) == (k, rest),
    decreases k.len(),
{
    let s = k + seq!['"', ':'] + rest;
    if k.len() == 0 {
        assert(s =~= seq!['"', ':'] + rest);
        assert(s[0] == '"');
        assert(s.skip(1) =~= seq![':'] + rest);
        assert(s.skip(1)[0] == ':');
        assert(skip_past_colon(s.skip(1)) == s.skip(1).skip(1));
        assert(s.skip(1).skip(1) =~= rest);
        assert(key_split(s).0 =~= k);
    } else {
        assert(forall|i: int| 0 <= i < k.len() - 1 ==> #[trigger] k.skip(1)[i] == k[i + 1]);
        lemma_key_split_clean(k.skip(1), rest);
        assert(s[0] == k[0]);
        assert(s[0] != '"');
        assert(s.skip(1) =~= k.skip(1) + seq!['"', ':'] + rest);
        assert(key_split(s).0 =~= seq![k[0]] + key_split(s.skip(1)).0);
        assert(seq![k[0]] + k.skip(1) =~= k);
        assert(key_split(s).0 =~= k);
    }
}

/// A primitive token free of terminators is scanned exactly, the
/// terminator after it consumed.
pub proof fn lemma_ext_prim_clean(q: Seq<char>, sep: char, rest: Seq<char>)
    requires
        is_ws(sep) || sep == ',' || sep == '}' || sep == ']',
        forall|i: int|
            0 <= i < q.len() ==> !(is_ws(#[trigger] q[i]) || q[i] == ',' || q[i] == '}' || q[i]
                == ']'),
    ensures
        ext_prim(q + seq![sep] + rest) == (q, rest),
    decreases q.len(),
{
    let s = q + seq![sep] + rest;
    if q.len() == 0 {
        assert(s =~= seq![sep] + rest);
        assert(s[0] == sep);
        assert(s.skip(1) =~= rest);
        assert(ext_prim(s).0 =~= q);
    } else {
        assert(forall|i: int| 0 <= i < q.len() - 1 ==> #[trigger] q.skip(1)[i] == q[i + 1]);
        lemma_ext_prim_clean(q.skip(1), sep, rest);
        assert(s[0] == q[0]);
        assert(s.skip(1) =~= q.skip(1) + seq![sep] + rest);
        assert(ext_prim(s).0 =~= seq![q[0]] + ext_prim(s.skip(1)).0);
        assert(seq![q[0]] + q.skip(1) =~= q);
        assert(ext_prim(s).0 =~= q);
    }
}

/// A separator in front of a tail; naming the combination gives the
/// quantifier below a stable trigger.
pub open spec fn sep_rest(sep: char, rest: Seq<char>) -> Seq<char> {
    seq![sep] + rest
}

/// A raw value slice the scanner reads back exactly: followed by a comma
/// or closing brace and anything else, the scan returns the slice itself,
/// at most consuming the separator.
pub open spec fn value_scan_exact(v: Seq<char>) -> bool {
    forall|sep: char, rest: Seq<char>|
        (sep == ',' || sep == '}' || sep == ']') ==> {
            let r = value_split(v + #[trigger] sep_rest(sep, rest));
            r.0 == v && (r.1 == rest || r.1 == sep_rest(sep, rest))
        }
}

/// Serialized strings are scanned back exactly.
pub proof fn lemma_string_value_scan_exact(v: Seq<char>)
    ensures
        value_scan_exact(seq!['"'] + escape_chars(v) + seq!['"']),
{
    let raw = seq!['"'] + escape_chars(v) + seq!['"'];
    assert forall|sep: char, rest: Seq<char>| (sep == ',' || sep == '}' || sep == ']') implies {
        let r = value_split(raw + #[trigger] sep_rest(sep, rest));
        r.0 == raw && (r.1 == rest || r.1 == sep_rest(sep, rest))
    } by {
        let s = raw + sep_rest(sep, rest);
        assert(s[0] == '"');
        assert(s[0] != ' ' && s[0] != ',');
        assert(s.skip(1) =~= escape_chars(v) + seq!['"'] + sep_rest(sep, rest));
        lemma_ext_string_escaped(v, sep_rest(sep, rest));
        let r = value_split(s);
        assert(r.0 =~= raw);
        assert(r.1 == sep_rest(sep, rest));
    }
}

/// Serialized integers are scanned back exactly.
pub proof fn lemma_int_value_scan_exact(x: int)
    ensures
        value_scan_exact(i_chars(x)),
{
    lemma_i_chars_value(x);
    let raw = i_chars(x);
    assert(raw.len() >= 1);
    assert forall|i: int|
        0 <= i < raw.len() ==> !(is_ws(#[trigger] raw[i]) || raw[i] == ',' || raw[i] == '}'
            || raw[i] == ']') by {
        if x < 0 {
            assert(raw =~= seq!['-'] + u_chars((-x) as nat));
            lemma_u_chars_value((-x) as nat);
            assert(forall|i: int|
                1 <= i < raw.len() ==> crate::strutil::is_digit(#[trigger] raw[i])) by {
                assert(forall|i: int|
                    0 <= i < u_chars((-x) as nat).len() ==> #[trigger] u_chars((-x) as nat)[i]
                        == raw[i + 1]);
                assert(all_digits(u_chars((-x) as nat)));
            }
        } else {
            lemma_u_chars_value(x as nat);
            assert(raw == u_chars(x as nat));
            assert(all_digits(raw));
        }
    }
    assert forall|sep: char, rest: Seq<char>| (sep == ',' || sep == '}' || sep == ']') implies {
        let r = value_split(raw + #[trigger] sep_rest(sep, rest));
        r.0 == raw && (r.1 == rest || r.1 == sep_rest(sep, rest))
    } by {
        let s = raw + sep_rest(sep, rest);
        assert(s[0] == raw[0]);
        assert(raw[0] != ' ' && raw[0] != ',' && raw[0] != '"' && raw[0] != '{' && raw[0] != '[');
        assert(s.skip(1) =~= raw.skip(1) + seq![sep] + rest);
        assert(forall|i: int|
            0 <= i < raw.len() - 1 ==> #[trigger] raw.skip(1)[i] == raw[i + 1]);
        lemma_ext_prim_clean(raw.skip(1), sep, rest);
        let r = value_split(s);
        assert(r.0 =~= seq![raw[0]] + raw.skip(1));
        assert(seq![raw[0]] + raw.skip(1) =~= raw);
        assert(r.1 == rest);
    }
}


/// Serialized booleans are scanned back exactly.
pub proof fn lemma_bool_value_scan_exact(b: bool)
    ensures
        value_scan_exact(b.to_json_spec()),
{
    let raw = b.to_json_spec();
    assert forall|sep: char, rest: Seq<char>| (sep == ',' || sep == '}' || sep == ']') implies {
        let r = value_split(raw + #[trigger] sep_rest(sep, rest));
        r.0 == raw && (r.1 == rest || r.1 == sep_rest(sep, rest))
    } by {
        let s = raw + sep_rest(sep, rest);
        assert(s[0] == raw[0]);
        assert(raw[0] != ' ' && raw[0] != ',' && raw[0] != '"' && raw[0] != '{' && raw[0] != '[');
        assert(s.skip(1) =~= raw.skip(1) + seq![sep] + rest);
        assert(forall|i: int|
            0 <= i < raw.len() - 1 ==> #[trigger] raw.skip(1)[i] == raw[i + 1]);
        lemma_ext_prim_clean(raw.skip(1), sep, rest);
        let r = value_split(s);
        assert(r.0 =~= seq![raw[0]] + raw.skip(1));
        assert(seq![raw[0]] + raw.skip(1) =~= raw);
        assert(r.1 == rest);
    }
}

/// An entry the scanner reads back faithfully: a quote-free key and an
/// exactly-scannable raw value.
pub open spec fn entry_wf(e: (Seq<char>, Seq<char>)) -> bool {
    (forall|i: int| 0 <= i < e.0.len() ==> (#[trigger] e.0[i]) != '"') && value_scan_exact(e.1)
}

proof fn lemma_obj_entries_serialized_rec(es: Seq<(Seq<char>, Seq<char>)>)
    requires
        forall|i: int| 0 <= i < es.len() ==> entry_wf(#[trigger] es[i]),
    ensures
        obj_entries(
            spec_join(
                es.map_values(|e: (Seq<char>, Seq<char>)| render_entry(e)),
                seq![','],
            ) + seq!['}'],
        ) == es,
    decreases es.len(),
{
    let parts = es.map_values(|e: (Seq<char>, Seq<char>)| render_entry(e));
    let text = spec_join(parts, seq![',']) + seq!['}'];
    if es.len() == 0 {
        assert(parts.len() == 0);
        assert(text =~= seq!['}']);
        assert(text[0] != '"');
        assert(text.skip(1) =~= Seq::<char>::empty());
        assert(obj_entries(text.skip(1)) =~= Seq::<(Seq<char>, Seq<char>)>::empty());
        assert(obj_entries(text) =~= es);
    } else {
        let e = es[0];
        assert(entry_wf(e));
        let rest_entries = es.skip(1);
        assert(forall|i: int|
            0 <= i < rest_entries.len() ==> entry_wf(#[trigger] rest_entries[i])) by {
            assert(forall|i: int|
                0 <= i < es.len() - 1 ==> #[trigger] rest_entries[i] == es[i + 1]);
        }
        lemma_obj_entries_serialized_rec(rest_entries);
        let rest_parts = rest_entries.map_values(|x: (Seq<char>, Seq<char>)| render_entry(x));
        let rtext = spec_join(rest_parts, seq![',']) + seq!['}'];
        assert(parts[0] == render_entry(e));
        let sep: char = if es.len() == 1 {
            '}'
        } else {
            ','
        };
        let after: Seq<char> = if es.len() == 1 {
            Seq::<char>::empty()
        } else {
            rtext
        };
        // The serialized text is one rendered entry, then a separator,
        // then the rest.
        assert(text =~= render_entry(e) + sep_rest(sep, after)) by {
            if es.len() == 1 {
                assert(spec_join(parts, seq![',']) == parts[0]);
                assert(text =~= render_entry(e) + (seq!['}'] + Seq::<char>::empty()));
            } else {
                assert(parts.skip(1) =~= rest_parts);
                assert(spec_join(parts, seq![',']) == parts[0] + seq![','] + spec_join(
                    rest_parts,
                    seq![','],
                ));
                assert(text =~= render_entry(e) + (seq![','] + rtext));
            }
            assert(sep_rest(sep, after) =~= seq![sep] + after);
        }
        // Scan the key.
        assert(text[0] == '"');
        assert(text.skip(1) =~= e.0 + seq!['"', ':'] + (e.1 + sep_rest(sep, after)));
        lemma_key_split_clean(e.0, e.1 + sep_rest(sep, after));
        let ks = key_split(text.skip(1));
        assert(ks.0 == e.0);
        assert(ks.1 == e.1 + sep_rest(sep, after));
        // Scan the value.
        let vs = value_split(ks.1);
        assert(vs.0 == e.1 && (vs.1 == after || vs.1 == sep_rest(sep, after)));
        // Whatever was left, the scan continues into the rest.
        assert(obj_entries(vs.1) == rest_entries) by {
            if vs.1 == after {
                if es.len() == 1 {
                    assert(obj_entries(vs.1) =~= rest_entries);
                } else {
                    assert(obj_entries(rtext) == rest_entries);
                }
            } else {
                assert(vs.1 =~= seq![sep] + after);
                assert(vs.1[0] == sep);
                assert(sep != '"');
                assert(vs.1.skip(1) =~= after);
                if es.len() == 1 {
                    assert(obj_entries(after) =~= rest_entries);
                } else {
                    assert(obj_entries(rtext) == rest_entries);
                }
            }
        }
        assert(obj_entries(text) =~= seq![(e.0, e.1)] + rest_entries);
        assert(seq![(e.0, e.1)] + rest_entries =~= es);
    }
}

/// Round-trip for objects: parsing the serialized text of an object
/// whose keys hold no quote and whose raw values scan back exactly —
/// as every value stored through `set` from the string, integer and
/// boolean serializers does — yields an object with the same mapping.
pub proof fn lemma_roundtrip_object(o: JsonObject)
    requires
        forall|i: int| 0 <= i < o.entries().len() ==> entry_wf(#[trigger] o.entries()[i]),
    ensures
        entries_map(obj_entries(o.to_json_spec())) == o@,
{
    let body = spec_join(
        o.entries().map_values(|e: (Seq<char>, Seq<char>)| render_entry(e)),
        seq![','],
    ) + seq!['}'];
    assert(o.to_json_spec() =~= seq!['{'] + body);
    let t = o.to_json_spec();
    assert(t[0] == '{');
    assert(t[0] != '"');
    assert(t.skip(1) =~= body);
    lemma_obj_entries_serialized_rec(o.entries());
    assert(obj_entries(t) == o.entries());
}


/// A raw array item that scans cleanly in item position: non-empty and
/// opening with a character the item scanner does not skip.
pub open spec fn item_wf(v: Seq<char>) -> bool {
    value_scan_exact(v) && v.len() > 0 && v[0] != ']' && v[0] != '[' && !is_ws(v[0])
}

proof fn lemma_arr_items_serialized_rec(vs: Seq<Seq<char>>)
    requires
        forall|i: int| 0 <= i < vs.len() ==> item_wf(#[trigger] vs[i]),
    ensures
        arr_items(spec_join(vs, seq![',']) + seq![']']) == vs,
    decreases vs.len(),
{
    let text = spec_join(vs, seq![',']) + seq![']'];
    if vs.len() == 0 {
        assert(text =~= seq![']']);
        assert(text[0] == ']');
        assert(text.skip(1) =~= Seq::<char>::empty());
        assert(arr_items(text.skip(1)) =~= Seq::<Seq<char>>::empty());
        assert(arr_items(text) =~= vs);
    } else {
        let v0 = vs[0];
        assert(item_wf(v0));
        let rest_vals = vs.skip(1);
        assert(forall|i: int| 0 <= i < rest_vals.len() ==> item_wf(#[trigger] rest_vals[i])) by {
            assert(forall|i: int|
                0 <= i < vs.len() - 1 ==> #[trigger] rest_vals[i] == vs[i + 1]);
        }
        lemma_arr_items_serialized_rec(rest_vals);
        let rtext = spec_join(rest_vals, seq![',']) + seq![']'];
        let sep: char = if vs.len() == 1 {
            ']'
        } else {
            ','
        };
        let after: Seq<char> = if vs.len() == 1 {
            Seq::<char>::empty()
        } else {
            rtext
        };
        assert(text =~= v0 + sep_rest(sep, after)) by {
            if vs.len() == 1 {
                assert(spec_join(vs, seq![',']) == vs[0]);
            } else {
                assert(vs.skip(1) =~= rest_vals);
                assert(spec_join(vs, seq![',']) == vs[0] + seq![','] + spec_join(
                    rest_vals,
                    seq![','],
                ));
            }
            assert(sep_rest(sep, after) =~= seq![sep] + after);
        }
        assert(text[0] == v0[0]);
        assert(text[0] != ']');
        let r = value_split(text);
        assert(r.0 == v0 && (r.1 == after || r.1 == sep_rest(sep, after)));
        // Whatever was left, the item scan continues into the rest.
        assert(arr_items(r.1) == rest_vals) by {
            if vs.len() == 1 {
                // The rest is empty, perhaps behind the closing bracket.
                if r.1 == after {
                    assert(arr_items(r.1) =~= rest_vals);
                } else {
                    assert(r.1 =~= seq![']'] + Seq::<char>::empty());
                    assert(r.1[0] == ']');
                    assert(r.1.skip(1) =~= Seq::<char>::empty());
                    assert(arr_items(r.1.skip(1)) =~= Seq::<Seq<char>>::empty());
                    assert(arr_items(r.1) =~= rest_vals);
                }
            } else {
                assert(rtext[0] == rest_vals[0][0]);
                assert(rtext[0] != ']');
                if r.1 == after {
                } else {
                    // A leading comma is skipped by the value scanner, so
                    // the item scan gives the same items.
                    assert(r.1 =~= seq![','] + rtext);
                    assert(r.1[0] == ',');
                    assert(r.1[0] != ']');
                    assert(r.1.skip(1) =~= rtext);
                    assert(value_split(r.1) == value_split(rtext));
                    assert(arr_items(r.1) =~= seq![value_split(r.1).0] + arr_items(
                        value_split(r.1).1,
                    ));
                    assert(arr_items(rtext) =~= seq![value_split(rtext).0] + arr_items(
                        value_split(rtext).1,
                    ));
                }
            }
        }
        assert(arr_items(text) =~= seq![v0] + rest_vals);
        assert(seq![v0] + rest_vals =~= vs);
    }
}

/// Round-trip for arrays: parsing the serialized text of an array whose
/// raw items scan back exactly — as string, integer and boolean items
/// do — yields the same items.
pub proof fn lemma_roundtrip_array(a: JsonArray)
    requires
        forall|i: int| 0 <= i < a@.len() ==> item_wf(#[trigger] a@[i]),
    ensures
        arr_items(arr_skip(a.to_json_spec())) == a@,
{
    let body = spec_join(a@, seq![',']) + seq![']'];
    let t = a.to_json_spec();
    assert(t =~= seq!['['] + body);
    assert(t[0] == '[');
    assert(t.skip(1) =~= body);
    assert(arr_skip(t) == arr_skip(body));
    if a@.len() == 0 {
        assert(body =~= seq![']']);
        assert(!(is_ws(body[0]) || body[0] == '['));
        assert(arr_skip(body) == body);
    } else {
        assert(body[0] == a@[0][0]);
        assert(!(is_ws(body[0]) || body[0] == '['));
        assert(arr_skip(body) == body);
    }
    lemma_arr_items_serialized_rec(a@);
}


/// A depth and a tail; naming the combination gives the quantifier below
/// a stable trigger.
pub open spec fn depth_rest(d: int, rest: Seq<char>) -> Seq<char> {
    rest
}

/// The composite scanner with delimiters `(op, cl)` emits `v` exactly
/// and runs on: started at any positive depth in state `(in0, esc0)`, it
/// neither stops nor drops a character inside `v`, leaves the depth
/// unchanged, and continues in state `(in1, esc1)`.
pub open spec fn emits_through(
    v: Seq<char>,
    in0: bool,
    esc0: bool,
    in1: bool,
    esc1: bool,
    op: char,
    cl: char,
) -> bool {
    forall|d: int, rest: Seq<char>|
        1 <= d ==> {
            let whole = ext_delim(v + #[trigger] depth_rest(d, rest), d, in0, esc0, op, cl);
            let cont = ext_delim(rest, d, in1, esc1, op, cl);
            whole.0 == v + cont.0 && whole.1 == cont.1
        }
}

/// Segments that run through compose.
pub proof fn lemma_emits_concat(
    a: Seq<char>,
    b: Seq<char>,
    in0: bool,
    esc0: bool,
    in1: bool,
    esc1: bool,
    in2: bool,
    esc2: bool,
    op: char,
    cl: char,
)
    requires
        emits_through(a, in0, esc0, in1, esc1, op, cl),
        emits_through(b, in1, esc1, in2, esc2, op, cl),
    ensures
        emits_through(a + b, in0, esc0, in2, esc2, op, cl),
{
    assert forall|d: int, rest: Seq<char>| 1 <= d implies {
        let whole = ext_delim((a + b) + #[trigger] depth_rest(d, rest), d, in0, esc0, op, cl);
        let cont = ext_delim(rest, d, in2, esc2, op, cl);
        whole.0 == (a + b) + cont.0 && whole.1 == cont.1
    } by {
        assert((a + b) + depth_rest(d, rest) =~= a + depth_rest(d, b + rest));
        assert(b + rest =~= b + depth_rest(d, rest));
        let mid = ext_delim(b + depth_rest(d, rest), d, in1, esc1, op, cl);
        let cont = ext_delim(rest, d, in2, esc2, op, cl);
        assert(mid.0 == b + cont.0 && mid.1 == cont.1);
        let whole = ext_delim(a + depth_rest(d, b + rest), d, in0, esc0, op, cl);
        assert(whole.0 == a + mid.0 && whole.1 == mid.1);
        assert(a + (b + cont.0) =~= (a + b) + cont.0);
    }
}

/// One character outside strings that is no whitespace, no delimiter and
/// no quote is emitted and leaves the state alone; a backslash would arm
/// the escape, so it is left out too.
pub proof fn lemma_emits_plain_char(c: char, op: char, cl: char)
    requires
        !is_ws(c),
        c != op && c != cl && c != '"' && c != '\\',
    ensures
        emits_through(seq![c], false, false, false, false, op, cl),
{
    assert forall|d: int, rest: Seq<char>| 1 <= d implies {
        let whole = ext_delim(seq![c] + #[trigger] depth_rest(d, rest), d, false, false, op, cl);
        let cont = ext_delim(rest, d, false, false, op, cl);
        whole.0 == seq![c] + cont.0 && whole.1 == cont.1
    } by {
        let s = seq![c] + depth_rest(d, rest);
        assert(s[0] == c);
        assert(s.skip(1) =~= rest);
    }
}

/// A quote outside strings opens one; the depth does not move.
pub proof fn lemma_emits_quote_open(op: char, cl: char)
    ensures
        emits_through(seq!['"'], false, false, true, false, op, cl),
{
    assert forall|d: int, rest: Seq<char>| 1 <= d implies {
        let whole = ext_delim(seq!['"'] + #[trigger] depth_rest(d, rest), d, false, false, op, cl);
        let cont = ext_delim(rest, d, true, false, op, cl);
        whole.0 == seq!['"'] + cont.0 && whole.1 == cont.1
    } by {
        let s = seq!['"'] + depth_rest(d, rest);
        assert(s[0] == '"');
        assert(s.skip(1) =~= rest);
    }
}

/// An unescaped quote inside a string closes it; the delimiters must
/// not themselves be quotes.
pub proof fn lemma_emits_quote_close(op: char, cl: char)
    requires
        op != '"',
        cl != '"',
    ensures
        emits_through(seq!['"'], true, false, false, false, op, cl),
{
    assert forall|d: int, rest: Seq<char>| 1 <= d implies {
        let whole = ext_delim(seq!['"'] + #[trigger] depth_rest(d, rest), d, true, false, op, cl);
        let cont = ext_delim(rest, d, false, false, op, cl);
        whole.0 == seq!['"'] + cont.0 && whole.1 == cont.1
    } by {
        let s = seq!['"'] + depth_rest(d, rest);
        assert(s[0] == '"');
        assert(s.skip(1) =~= rest);
    }
}

/// Characters inside a string, free of quotes and backslashes, are
/// emitted untouched.
pub proof fn lemma_emits_in_string(v: Seq<char>, op: char, cl: char)
    requires
        forall|i: int| 0 <= i < v.len() ==> (#[trigger] v[i]) != '"' && v[i] != '\\',
    ensures
        emits_through(v, true, false, true, false, op, cl),
    decreases v.len(),
{
    if v.len() == 0 {
        assert forall|d: int, rest: Seq<char>| 1 <= d implies {
            let whole = ext_delim(v + #[trigger] depth_rest(d, rest), d, true, false, op, cl);
            let cont = ext_delim(rest, d, true, false, op, cl);
            whole.0 == v + cont.0 && whole.1 == cont.1
        } by {
            assert(v + depth_rest(d, rest) =~= rest);
            assert(v + ext_delim(rest, d, true, false, op, cl).0 =~= ext_delim(
                rest,
                d,
                true,
                false,
                op,
                cl,
            ).0);
        }
    } else {
        assert(forall|i: int|
            0 <= i < v.len() - 1 ==> (#[trigger] v.skip(1)[i]) == v[i + 1]);
        lemma_emits_in_string(v.skip(1), op, cl);
        let c = v[0];
        assert forall|d: int, rest: Seq<char>| 1 <= d implies {
            let whole = ext_delim(v + #[trigger] depth_rest(d, rest), d, true, false, op, cl);
            let cont = ext_delim(rest, d, true, false, op, cl);
            whole.0 == v + cont.0 && whole.1 == cont.1
        } by {
            let s = v + depth_rest(d, rest);
            assert(s[0] == c);
            assert(s.skip(1) =~= v.skip(1) + depth_rest(d, rest));
            let mid = ext_delim(v.skip(1) + depth_rest(d, rest), d, true, false, op, cl);
            let cont = ext_delim(rest, d, true, false, op, cl);
            assert(mid.0 == v.skip(1) + cont.0 && mid.1 == cont.1);
            assert(seq![c] + (v.skip(1) + cont.0) =~= v + cont.0);
        }
    }
}

/// Escaped string content is emitted untouched inside a string: every
/// escape is a self-contained pair, so no unescaped quote can arise.
pub proof fn lemma_emits_escaped(v: Seq<char>, op: char, cl: char)
    ensures
        emits_through(escape_chars(v), true, false, true, false, op, cl),
    decreases v.len(),
{
    if v.len() == 0 {
        assert(escape_chars(v) =~= Seq::<char>::empty());
        lemma_emits_in_string(escape_chars(v), op, cl);
    } else {
        lemma_emits_escaped(v.skip(1), op, cl);
        let c = v[0];
        let e = esc_char(c);
        assert(escape_chars(v) =~= e + escape_chars(v.skip(1)));
        assert(emits_through(e, true, false, true, false, op, cl)) by {
            if c == '\\' || c == '"' || c == '\n' || c == '\t' {
                assert(e.len() == 2 && e[0] == '\\');
                assert forall|d: int, rest: Seq<char>| 1 <= d implies {
                    let whole = ext_delim(e + #[trigger] depth_rest(d, rest), d, true, false, op, cl);
                    let cont = ext_delim(rest, d, true, false, op, cl);
                    whole.0 == e + cont.0 && whole.1 == cont.1
                } by {
                    let s = e + depth_rest(d, rest);
                    assert(s[0] == '\\');
                    assert(s.len() >= 2);
                    assert(s[1] == e[1]);
                    assert(s.skip(1)[0] == e[1]);
                    assert(s.skip(1).skip(1) =~= rest);
                    let cont = ext_delim(rest, d, true, false, op, cl);
                    let midterm = ext_delim(s.skip(1), d, true, true, op, cl);
                    assert(midterm.0 == seq![e[1]] + cont.0 && midterm.1 == cont.1);
                    let whole = ext_delim(s, d, true, false, op, cl);
                    assert(whole.0 == seq!['\\'] + midterm.0 && whole.1 == midterm.1);
                    assert(seq!['\\'] + (seq![e[1]] + cont.0) =~= e + cont.0);
                }
            } else {
                assert(e =~= seq![c]);
                assert forall|d: int, rest: Seq<char>| 1 <= d implies {
                    let whole = ext_delim(e + #[trigger] depth_rest(d, rest), d, true, false, op, cl);
                    let cont = ext_delim(rest, d, true, false, op, cl);
                    whole.0 == e + cont.0 && whole.1 == cont.1
                } by {
                    let s = e + depth_rest(d, rest);
                    assert(s[0] == c);
                    assert(s.skip(1) =~= rest);
                    let cont = ext_delim(rest, d, true, false, op, cl);
                    let whole = ext_delim(s, d, true, false, op, cl);
                    assert(whole.0 == seq![c] + cont.0 && whole.1 == cont.1);
                    assert(seq![c] + cont.0 =~= e + cont.0);
                }
            }
        }
        lemma_emits_concat(
            e,
            escape_chars(v.skip(1)),
            true,
            false,
            true,
            false,
            true,
            false,
            op,
            cl,
        );
    }
}


/// The empty segment runs through in any state.
pub proof fn lemma_emits_empty(in0: bool, esc0: bool, op: char, cl: char)
    ensures
        emits_through(Seq::<char>::empty(), in0, esc0, in0, esc0, op, cl),
{
    assert forall|d: int, rest: Seq<char>| 1 <= d implies {
        let whole = ext_delim(
            Seq::<char>::empty() + #[trigger] depth_rest(d, rest),
            d,
            in0,
            esc0,
            op,
            cl,
        );
        let cont = ext_delim(rest, d, in0, esc0, op, cl);
        whole.0 == Seq::<char>::empty() + cont.0 && whole.1 == cont.1
    } by {
        assert(Seq::<char>::empty() + depth_rest(d, rest) =~= rest);
        assert(Seq::<char>::empty() + ext_delim(rest, d, in0, esc0, op, cl).0 =~= ext_delim(
            rest,
            d,
            in0,
            esc0,
            op,
            cl,
        ).0);
    }
}

/// Out-of-string text free of whitespace, delimiters, quotes and
/// backslashes is emitted untouched.
pub proof fn lemma_emits_plain(v: Seq<char>, op: char, cl: char)
    requires
        forall|i: int|
            0 <= i < v.len() ==> !is_ws(#[trigger] v[i]) && v[i] != op && v[i] != cl && v[i]
                != '"' && v[i] != '\\',
    ensures
        emits_through(v, false, false, false, false, op, cl),
    decreases v.len(),
{
    if v.len() == 0 {
        lemma_emits_empty(false, false, op, cl);
        assert(v =~= Seq::<char>::empty());
    } else {
        assert(forall|i: int|
            0 <= i < v.len() - 1 ==> (#[trigger] v.skip(1)[i]) == v[i + 1]);
        lemma_emits_plain(v.skip(1), op, cl);
        lemma_emits_plain_char(v[0], op, cl);
        lemma_emits_concat(
            seq![v[0]],
            v.skip(1),
            false,
            false,
            false,
            false,
            false,
            false,
            op,
            cl,
        );
        assert(seq![v[0]] + v.skip(1) =~= v);
    }
}

/// A serialized string runs through the composite scanner: the quotes
/// open and close one string around untouched escaped content.
pub proof fn lemma_string_value_emits(s: Seq<char>, op: char, cl: char)
    requires
        op == '{' && cl == '}' || op == '[' && cl == ']',
    ensures
        emits_through(
            seq!['"'] + escape_chars(s) + seq!['"'],
            false,
            false,
            false,
            false,
            op,
            cl,
        ),
{
    lemma_emits_quote_open(op, cl);
    lemma_emits_escaped(s, op, cl);
    lemma_emits_quote_close(op, cl);
    lemma_emits_concat(
        seq!['"'],
        escape_chars(s),
        false,
        false,
        true,
        false,
        true,
        false,
        op,
        cl,
    );
    lemma_emits_concat(
        seq!['"'] + escape_chars(s),
        seq!['"'],
        false,
        false,
        true,
        false,
        false,
        false,
        op,
        cl,
    );
}

/// A serialized integer runs through the composite scanner.
pub proof fn lemma_int_value_emits(x: int, op: char, cl: char)
    requires
        op == '{' && cl == '}' || op == '[' && cl == ']',
    ensures
        emits_through(i_chars(x), false, false, false, false, op, cl),
{
    let raw = i_chars(x);
    assert forall|i: int|
        0 <= i < raw.len() implies !is_ws(#[trigger] raw[i]) && raw[i] != op && raw[i] != cl
            && raw[i] != '"' && raw[i] != '\\' by {
        if x < 0 {
            lemma_u_chars_value((-x) as nat);
            assert(raw =~= seq!['-'] + u_chars((-x) as nat));
            if i > 0 {
                assert(raw[i] == u_chars((-x) as nat)[i - 1]);
                assert(crate::strutil::is_digit(raw[i]));
            }
        } else {
            lemma_u_chars_value(x as nat);
            assert(raw == u_chars(x as nat));
            assert(crate::strutil::is_digit(raw[i]));
        }
    }
    lemma_emits_plain(raw, op, cl);
}

/// A serialized boolean runs through the composite scanner.
pub proof fn lemma_bool_value_emits(b: bool, op: char, cl: char)
    requires
        op == '{' && cl == '}' || op == '[' && cl == ']',
    ensures
        emits_through(b.to_json_spec(), false, false, false, false, op, cl),
{
    lemma_emits_plain(b.to_json_spec(), op, cl);
}

/// An entry whose serialized form every composite scanner passes over
/// untouched and whose raw value also scans exactly on its own: the key
/// holds neither quotes nor backslashes, and the value both runs through
/// at depth — under braces and under brackets — and reads back exactly
/// in value position.
pub open spec fn nested_entry_wf(e: (Seq<char>, Seq<char>)) -> bool {
    (forall|i: int|
        0 <= i < e.0.len() ==> (#[trigger] e.0[i]) != '"' && e.0[i] != '\\')
        && value_scan_exact(e.1) && emits_through(e.1, false, false, false, false, '{', '}')
        && emits_through(e.1, false, false, false, false, '[', ']')
}

/// A raw array item of the same standing.
pub open spec fn nested_item_wf(v: Seq<char>) -> bool {
    item_wf(v) && emits_through(v, false, false, false, false, '{', '}') && emits_through(
        v,
        false,
        false,
        false,
        false,
        '[',
        ']',
    )
}

proof fn lemma_render_emits(e: (Seq<char>, Seq<char>), op: char, cl: char)
    requires
        nested_entry_wf(e),
        op == '{' && cl == '}' || op == '[' && cl == ']',
    ensures
        emits_through(render_entry(e), false, false, false, false, op, cl),
{
    lemma_emits_quote_open(op, cl);
    lemma_emits_in_string(e.0, op, cl);
    lemma_emits_quote_close(op, cl);
    lemma_emits_plain_char(':', op, cl);
    lemma_emits_concat(seq!['"'], e.0, false, false, true, false, true, false, op, cl);
    lemma_emits_concat(
        seq!['"'] + e.0,
        seq!['"'],
        false,
        false,
        true,
        false,
        false,
        false,
        op,
        cl,
    );
    lemma_emits_concat(
        seq!['"'] + e.0 + seq!['"'],
        seq![':'],
        false,
        false,
        false,
        false,
        false,
        false,
        op,
        cl,
    );
    lemma_emits_concat(
        seq!['"'] + e.0 + seq!['"'] + seq![':'],
        e.1,
        false,
        false,
        false,
        false,
        false,
        false,
        op,
        cl,
    );
    assert(seq!['"'] + e.0 + seq!['"'] + seq![':'] + e.1 =~= render_entry(e));
}

proof fn lemma_entries_emit(es: Seq<(Seq<char>, Seq<char>)>, op: char, cl: char)
    requires
        forall|i: int| 0 <= i < es.len() ==> nested_entry_wf(#[trigger] es[i]),
        op == '{' && cl == '}' || op == '[' && cl == ']',
    ensures
        emits_through(
            spec_join(
                es.map_values(|e: (Seq<char>, Seq<char>)| render_entry(e)),
                seq![','],
            ),
            false,
            false,
            false,
            false,
            op,
            cl,
        ),
    decreases es.len(),
{
    let parts = es.map_values(|e: (Seq<char>, Seq<char>)| render_entry(e));
    if es.len() == 0 {
        lemma_emits_empty(false, false, op, cl);
        assert(spec_join(parts, seq![',']) =~= Seq::<char>::empty());
    } else if es.len() == 1 {
        lemma_render_emits(es[0], op, cl);
        assert(spec_join(parts, seq![',']) == parts[0]);
        assert(parts[0] == render_entry(es[0]));
    } else {
        let rest_entries = es.skip(1);
        assert(forall|i: int|
            0 <= i < rest_entries.len() ==> nested_entry_wf(#[trigger] rest_entries[i])) by {
            assert(forall|i: int|
                0 <= i < es.len() - 1 ==> #[trigger] rest_entries[i] == es[i + 1]);
        }
        lemma_entries_emit(rest_entries, op, cl);
        lemma_render_emits(es[0], op, cl);
        lemma_emits_plain_char(',', op, cl);
        let rest_parts = rest_entries.map_values(|x: (Seq<char>, Seq<char>)| render_entry(x));
        assert(parts.skip(1) =~= rest_parts);
        assert(spec_join(parts, seq![',']) == parts[0] + seq![','] + spec_join(
            rest_parts,
            seq![','],
        ));
        lemma_emits_concat(
            render_entry(es[0]),
            seq![','],
            false,
            false,
            false,
            false,
            false,
            false,
            op,
            cl,
        );
        lemma_emits_concat(
            render_entry(es[0]) + seq![','],
            spec_join(rest_parts, seq![',']),
            false,
            false,
            false,
            false,
            false,
            false,
            op,
            cl,
        );
        assert(parts[0] == render_entry(es[0]));
        assert(render_entry(es[0]) + seq![','] + spec_join(rest_parts, seq![','])
            =~= spec_join(parts, seq![',']));
    }
}

proof fn lemma_items_emit(vs: Seq<Seq<char>>, op: char, cl: char)
    requires
        forall|i: int| 0 <= i < vs.len() ==> nested_item_wf(#[trigger] vs[i]),
        op == '{' && cl == '}' || op == '[' && cl == ']',
    ensures
        emits_through(spec_join(vs, seq![',']), false, false, false, false, op, cl),
    decreases vs.len(),
{
    if vs.len() == 0 {
        lemma_emits_empty(false, false, op, cl);
        assert(spec_join(vs, seq![',']) =~= Seq::<char>::empty());
    } else if vs.len() == 1 {
        assert(spec_join(vs, seq![',']) == vs[0]);
    } else {
        let rest_vals = vs.skip(1);
        assert(forall|i: int| 0 <= i < rest_vals.len() ==> nested_item_wf(#[trigger] rest_vals[i]))
            by {
            assert(forall|i: int|
                0 <= i < vs.len() - 1 ==> #[trigger] rest_vals[i] == vs[i + 1]);
        }
        lemma_items_emit(rest_vals, op, cl);
        lemma_emits_plain_char(',', op, cl);
        assert(spec_join(vs, seq![',']) == vs[0] + seq![','] + spec_join(rest_vals, seq![',']));
        lemma_emits_concat(vs[0], seq![','], false, false, false, false, false, false, op, cl);
        lemma_emits_concat(
            vs[0] + seq![','],
            spec_join(rest_vals, seq![',']),
            false,
            false,
            false,
            false,
            false,
            false,
            op,
            cl,
        );
    }
}

/// The serialized text of an object built from entries that run through
/// the scanners reads back exactly in value position: an object value
/// nested inside another object or array is scanned as one raw slice.
pub proof fn lemma_object_value_scan_exact(o: JsonObject)
    requires
        forall|i: int| 0 <= i < o.entries().len() ==> nested_entry_wf(#[trigger] o.entries()[i]),
    ensures
        value_scan_exact(o.to_json_spec()),
{
    let body = spec_join(
        o.entries().map_values(|e: (Seq<char>, Seq<char>)| render_entry(e)),
        seq![','],
    );
    let t = o.to_json_spec();
    assert(t =~= seq!['{'] + body + seq!['}']);
    lemma_entries_emit(o.entries(), '{', '}');
    assert forall|sep: char, rest: Seq<char>| (sep == ',' || sep == '}' || sep == ']') implies {
        let r = value_split(t + #[trigger] sep_rest(sep, rest));
        r.0 == t && (r.1 == rest || r.1 == sep_rest(sep, rest))
    } by {
        let s = t + sep_rest(sep, rest);
        assert(s[0] == '{');
        assert(s[0] != ' ' && s[0] != ',' && s[0] != '"' && s[0] != '[');
        let tail = seq!['}'] + sep_rest(sep, rest);
        assert(s.skip(1) =~= body + depth_rest(1, tail));
        let close = ext_delim(tail, 1, false, false, '{', '}');
        assert(close.0 == seq!['}'] && close.1 == sep_rest(sep, rest)) by {
            assert(tail[0] == '}');
            assert(tail.skip(1) =~= sep_rest(sep, rest));
        }
        let inner = ext_delim(s.skip(1), 1, false, false, '{', '}');
        assert(inner.0 == body + close.0 && inner.1 == close.1);
        let r = value_split(s);
        assert(r.0 == seq!['{'] + inner.0);
        assert(seq!['{'] + (body + seq!['}']) =~= t);
        assert(r.0 == t);
        assert(r.1 == sep_rest(sep, rest));
    }
}

/// The serialized text of such an object also runs through both
/// composite scanners at depth: under braces its own pair balances,
/// under brackets its braces are ordinary characters.  Together with the
/// lemma above, objects nest inside objects and arrays to any depth with
/// the round trip intact.
pub proof fn lemma_object_value_emits(o: JsonObject, op: char, cl: char)
    requires
        forall|i: int| 0 <= i < o.entries().len() ==> nested_entry_wf(#[trigger] o.entries()[i]),
        op == '{' && cl == '}' || op == '[' && cl == ']',
    ensures
        emits_through(o.to_json_spec(), false, false, false, false, op, cl),
{
    let body = spec_join(
        o.entries().map_values(|e: (Seq<char>, Seq<char>)| render_entry(e)),
        seq![','],
    );
    let t = o.to_json_spec();
    assert(t =~= seq!['{'] + body + seq!['}']);
    lemma_entries_emit(o.entries(), op, cl);
    if op == '{' {
        assert forall|d: int, rest: Seq<char>| 1 <= d implies {
            let whole = ext_delim(t + #[trigger] depth_rest(d, rest), d, false, false, op, cl);
            let cont = ext_delim(rest, d, false, false, op, cl);
            whole.0 == t + cont.0 && whole.1 == cont.1
        } by {
            let s = t + depth_rest(d, rest);
            assert(s[0] == '{');
            let tail = seq!['}'] + rest;
            assert(s.skip(1) =~= body + depth_rest(d + 1, tail));
            let cont = ext_delim(rest, d, false, false, '{', '}');
            let close = ext_delim(tail, d + 1, false, false, '{', '}');
            assert(close.0 == seq!['}'] + cont.0 && close.1 == cont.1) by {
                assert(tail[0] == '}');
                assert(tail.skip(1) =~= rest);
            }
            let inner = ext_delim(s.skip(1), d + 1, false, false, '{', '}');
            assert(inner.0 == body + close.0 && inner.1 == close.1);
            let whole = ext_delim(s, d, false, false, '{', '}');
            assert(whole.0 == seq!['{'] + inner.0 && whole.1 == inner.1);
            assert(seq!['{'] + (body + (seq!['}'] + cont.0)) =~= t + cont.0);
        }
    } else {
        // Under brackets the braces are ordinary characters.
        lemma_emits_plain_char('{', op, cl);
        lemma_emits_plain_char('}', op, cl);
        lemma_emits_concat(seq!['{'], body, false, false, false, false, false, false, op, cl);
        lemma_emits_concat(
            seq!['{'] + body,
            seq!['}'],
            false,
            false,
            false,
            false,
            false,
            false,
            op,
            cl,
        );
        assert(seq!['{'] + body + seq!['}'] =~= t);
    }
}

/// The serialized text of an array built from items that run through the
/// scanners reads back exactly in value position: an array value nested
/// inside an object or another array is scanned as one raw slice.
pub proof fn lemma_array_value_scan_exact(a: JsonArray)
    requires
        forall|i: int| 0 <= i < a@.len() ==> nested_item_wf(#[trigger] a@[i]),
    ensures
        value_scan_exact(a.to_json_spec()),
{
    let body = spec_join(a@, seq![',']);
    let t = a.to_json_spec();
    assert(t =~= seq!['['] + body + seq![']']);
    lemma_items_emit(a@, '[', ']');
    assert forall|sep: char, rest: Seq<char>| (sep == ',' || sep == '}' || sep == ']') implies {
        let r = value_split(t + #[trigger] sep_rest(sep, rest));
        r.0 == t && (r.1 == rest || r.1 == sep_rest(sep, rest))
    } by {
        let s = t + sep_rest(sep, rest);
        assert(s[0] == '[');
        assert(s[0] != ' ' && s[0] != ',' && s[0] != '"' && s[0] != '{');
        let tail = seq![']'] + sep_rest(sep, rest);
        assert(s.skip(1) =~= body + depth_rest(1, tail));
        let close = ext_delim(tail, 1, false, false, '[', ']');
        assert(close.0 == seq![']'] && close.1 == sep_rest(sep, rest)) by {
            assert(tail[0] == ']');
            assert(tail.skip(1) =~= sep_rest(sep, rest));
        }
        let inner = ext_delim(s.skip(1), 1, false, false, '[', ']');
        assert(inner.0 == body + close.0 && inner.1 == close.1);
        let r = value_split(s);
        assert(r.0 == seq!['['] + inner.0);
        assert(seq!['['] + (body + seq![']']) =~= t);
        assert(r.0 == t);
        assert(r.1 == sep_rest(sep, rest));
    }
}

/// The serialized text of such an array also runs through both composite
/// scanners at depth: under brackets its own pair balances, under braces
/// its brackets are ordinary characters.
pub proof fn lemma_array_value_emits(a: JsonArray, op: char, cl: char)
    requires
        forall|i: int| 0 <= i < a@.len() ==> nested_item_wf(#[trigger] a@[i]),
        op == '{' && cl == '}' || op == '[' && cl == ']',
    ensures
        emits_through(a.to_json_spec(), false, false, false, false, op, cl),
{
    let body = spec_join(a@, seq![',']);
    let t = a.to_json_spec();
    assert(t =~= seq!['['] + body + seq![']']);
    lemma_items_emit(a@, op, cl);
    if op == '[' {
        assert forall|d: int, rest: Seq<char>| 1 <= d implies {
            let whole = ext_delim(t + #[trigger] depth_rest(d, rest), d, false, false, op, cl);
            let cont = ext_delim(rest, d, false, false, op, cl);
            whole.0 == t + cont.0 && whole.1 == cont.1
        } by {
            let s = t + depth_rest(d, rest);
            assert(s[0] == '[');
            let tail = seq![']'] + rest;
            assert(s.skip(1) =~= body + depth_rest(d + 1, tail));
            let cont = ext_delim(rest, d, false, false, '[', ']');
            let close = ext_delim(tail, d + 1, false, false, '[', ']');
            assert(close.0 == seq![']'] + cont.0 && close.1 == cont.1) by {
                assert(tail[0] == ']');
                assert(tail.skip(1) =~= rest);
            }
            let inner = ext_delim(s.skip(1), d + 1, false, false, '[', ']');
            assert(inner.0 == body + close.0 && inner.1 == close.1);
            let whole = ext_delim(s, d, false, false, '[', ']');
            assert(whole.0 == seq!['['] + inner.0 && whole.1 == inner.1);
            assert(seq!['['] + (body + (seq![']'] + cont.0)) =~= t + cont.0);
        }
    } else {
        // Under braces the brackets are ordinary characters.
        lemma_emits_plain_char('[', op, cl);
        lemma_emits_plain_char(']', op, cl);
        lemma_emits_concat(seq!['['], body, false, false, false, false, false, false, op, cl);
        lemma_emits_concat(
            seq!['['] + body,
            seq![']'],
            false,
            false,
            false,
            false,
            false,
            false,
            op,
            cl,
        );
        assert(seq!['['] + body + seq![']'] =~= t);
    }
}

} // verus!
