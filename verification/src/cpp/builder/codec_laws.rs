//! What holds between reading a line and writing a variable: a line in
//! canonical form is read and written back unchanged, and a variable that a
//! line declared is read back from its own line.
use crate::cpp::builder::cmake_cache::{
    advanced_suffix, bare_name, format_variable, is_advanced_key, is_comment, kind_of_spelling,
    parse_assignment, parse_line, parse_parts, split_once, CMakeVariableType, VariableView,
};
use crate::error::ErrorView;
use crate::text::{
    index_of, is_trimmed, is_whitespace, leading_space, lemma_index_of, lemma_index_of_is,
    lemma_trim_end, lemma_trim_is_trimmed, lemma_trim_start, trim, trim_start,
};
use vstd::prelude::*;

verus! {

/// Whether `key` can stand before the colon of a line in canonical form: it
/// holds a name, that is something before the advanced suffix if it ends with
/// that, has no white space at its ends, holds neither `:` nor `=`, and does
/// not start a comment.
pub open spec fn is_canonical_key(key: Seq<char>) -> bool {
    &&& key.len() > 0
    &&& bare_name(key).len() > 0
    &&& is_trimmed(key)
    &&& !key.contains(':')
    &&& !key.contains('=')
    &&& !is_comment(key)
}

/// The line in canonical form with the given key, type and value.
pub open spec fn canonical_line(key: Seq<char>, kind: CMakeVariableType, value: Seq<char>) -> Seq<
    char,
> {
    key + seq![':'] + kind.spelling() + seq!['='] + value
}

/// The key under which a variable is written: its name, with the advanced
/// suffix where it is advanced.
pub open spec fn key_of(v: VariableView) -> Seq<char> {
    if v.advanced {
        v.name + advanced_suffix()
    } else {
        v.name
    }
}

/// Whether a variable is read back from its own line: its key is canonical,
/// its value has no white space at its ends, and its name does not itself end
/// with the advanced suffix unless it is advanced.
pub open spec fn is_canonical_variable(v: VariableView) -> bool {
    &&& is_canonical_key(key_of(v))
    &&& is_trimmed(v.value)
    &&& (!v.advanced ==> !is_advanced_key(v.name))
}

/// The spelling of a type is made of capital letters, is not empty, and
/// spells that type only.
pub proof fn lemma_spelling(kind: CMakeVariableType)
    ensures
        kind.spelling().len() > 0,
        forall|i: int|
            0 <= i < kind.spelling().len() ==> 'A' <= #[trigger] kind.spelling()[i] <= 'Z',
        kind_of_spelling(kind.spelling()) == Some(kind),
{
    reveal_strlit("BOOL");
    reveal_strlit("FILEPATH");
    reveal_strlit("PATH");
    reveal_strlit("STRING");
    reveal_strlit("INTERNAL");
    let b = CMakeVariableType::Bool.spelling();
    let f = CMakeVariableType::FilePath.spelling();
    let p = CMakeVariableType::Path.spelling();
    let s = CMakeVariableType::String.spelling();
    let i = CMakeVariableType::Internal.spelling();
    assert(b.len() == 4 && f.len() == 8 && p.len() == 4 && s.len() == 6 && i.len() == 8);
    assert(b[0] == 'B' && p[0] == 'P');
    assert(f[0] == 'F' && i[0] == 'I');
}

/// A sequence that starts and ends with something other than white space is
/// left alone by `trim`.
proof fn lemma_trim_same(s: Seq<char>)
    requires
        s.len() > 0 ==> !is_whitespace(s[0]) && !is_whitespace(s[s.len() - 1]),
    ensures
        trim(s) == s,
{
}

/// A line in canonical form declares the variable that it spells out.
pub proof fn lemma_parse_canonical(key: Seq<char>, kind: CMakeVariableType, value: Seq<char>)
    requires
        is_canonical_key(key),
        is_trimmed(value),
    ensures
        parse_line(canonical_line(key, kind, value)) == Ok::<VariableView, ErrorView>(
            VariableView {
                name: bare_name(key),
                var_type: kind,
                value,
                advanced: is_advanced_key(key),
            },
        ),
{
    let sp = kind.spelling();
    let line = canonical_line(key, kind, value);
    let lhs = key + seq![':'] + sp;
    lemma_spelling(kind);
    let eq: int = (key.len() + 1 + sp.len()) as int;
    assert(line.len() == eq + 1 + value.len());
    assert(line[0] == key[0]);
    assert(value.len() > 0 ==> line[line.len() - 1] == value[value.len() - 1]);
    assert(value.len() == 0 ==> line[line.len() - 1] == '=');
    lemma_trim_same(line);
    assert(!is_comment(line)) by {
        if key.len() >= 2 {
            assert(line[1] == key[1]);
        } else {
            assert(line[1] == ':');
        }
    }
    assert forall|j: int| 0 <= j < eq implies line[j] != '=' by {
        if j < key.len() {
            assert(line[j] == key[j]);
            assert(key.contains(key[j]));
        } else if j == key.len() {
            assert(line[j] == ':');
        } else {
            assert(line[j] == sp[j - key.len() - 1]);
        }
    }
    assert(line[eq] == '=');
    lemma_index_of_is(line, '=', eq);
    assert(line.take(eq) =~= lhs);
    assert(line.skip(eq + 1) =~= value);
    assert(split_once(line, '=') == Some((lhs, value)));
    assert(lhs[0] == key[0]);
    assert(lhs[lhs.len() - 1] == sp[sp.len() - 1]);
    lemma_trim_same(lhs);
    lemma_trim_same(value);
    assert forall|j: int| 0 <= j < key.len() implies lhs[j] != ':' by {
        assert(lhs[j] == key[j]);
        assert(key.contains(key[j]));
    }
    assert(lhs[key.len() as int] == ':');
    lemma_index_of_is(lhs, ':', key.len() as int);
    assert(lhs.take(key.len() as int) =~= key);
    assert(lhs.skip(key.len() as int + 1) =~= sp);
    assert(split_once(lhs, ':') == Some((key, sp)));
    lemma_trim_same(key);
    assert(sp[0] == kind.spelling()[0]);
    lemma_trim_same(sp);
    assert(parse_parts(key, sp, value) == Ok::<VariableView, ErrorView>(
        VariableView {
            name: bare_name(key),
            var_type: kind,
            value,
            advanced: is_advanced_key(key),
        },
    ));
    assert(parse_assignment(lhs, value) == parse_parts(key, sp, value));
}

/// Reading a line in canonical form and writing the variable gives the line
/// back.
pub proof fn lemma_format_parse_canonical(key: Seq<char>, kind: CMakeVariableType, value: Seq<char>)
    requires
        is_canonical_key(key),
        is_trimmed(value),
    ensures
        parse_line(canonical_line(key, kind, value)) matches Ok(v) && format_variable(v)
            == canonical_line(key, kind, value),
{
    lemma_parse_canonical(key, kind, value);
    let name = bare_name(key);
    if is_advanced_key(key) {
        assert(name + advanced_suffix() =~= key);
    } else {
        assert(name + Seq::<char>::empty() =~= key);
    }
}

/// A canonical variable is read back from the line that is written for it.
pub proof fn lemma_parse_format(v: VariableView)
    requires
        is_canonical_variable(v),
    ensures
        parse_line(format_variable(v)) == Ok::<VariableView, ErrorView>(v),
        format_variable(v) == canonical_line(key_of(v), v.var_type, v.value),
{
    let key = key_of(v);
    lemma_parse_canonical(key, v.var_type, v.value);
    if v.advanced {
        let n = advanced_suffix().len();
        assert(key.subrange(key.len() - n, key.len() as int) =~= advanced_suffix());
        assert(key.take(key.len() - n) =~= v.name);
    } else {
        assert(v.name + Seq::<char>::empty() =~= v.name);
    }
}

/// The trim of `s` is the window of `s` that starts behind its leading white
/// space.
proof fn lemma_trim_is_window(s: Seq<char>)
    ensures
        0 <= leading_space(s),
        leading_space(s) + trim(s).len() <= s.len(),
        trim(s) == s.subrange(leading_space(s), leading_space(s) + trim(s).len()),
        (s.len() > 0 && !is_whitespace(s[0])) ==> leading_space(s) == 0,
{
    let t = trim_start(s);
    lemma_trim_start(s);
    lemma_trim_end(t);
    let a = leading_space(s);
    assert(trim(s) =~= s.subrange(a, a + trim(s).len()));
}

/// What a line declares is a canonical variable, and the line written for it
/// is in canonical form. The name and the value hold only characters of the
/// line.
pub proof fn lemma_parsed_is_canonical(line: Seq<char>)
    ensures
        parse_line(line) matches Ok(v) ==> {
            &&& is_canonical_variable(v)
            &&& (forall|i: int| 0 <= i < v.name.len() ==> line.contains(#[trigger] v.name[i]))
            &&& (forall|i: int| 0 <= i < v.value.len() ==> line.contains(#[trigger] v.value[i]))
        },
{
    if let Ok(v) = parse_line(line) {
        let t = trim(line);
        lemma_trim_is_trimmed(line);
        lemma_trim_is_window(line);
        let eq = index_of(t, '=');
        lemma_index_of(t, '=');
        let left = t.take(eq);
        let right = t.skip(eq + 1);
        let lhs = trim(left);
        let value = trim(right);
        lemma_trim_is_trimmed(left);
        lemma_trim_is_trimmed(right);
        lemma_trim_is_window(left);
        lemma_trim_is_window(right);
        let colon = index_of(lhs, ':');
        lemma_index_of(lhs, ':');
        let before = lhs.take(colon);
        let after = lhs.skip(colon + 1);
        let key = trim(before);
        let kind_text = trim(after);
        lemma_trim_is_trimmed(before);
        lemma_trim_is_window(before);
        assert(left[0] == t[0]);
        assert(before[0] == lhs[0]);
        assert forall|i: int| 0 <= i < key.len() implies key[i] == t[i] by {
            assert(key[i] == before[i]);
            assert(before[i] == lhs[i]);
            assert(lhs[i] == left[i]);
        }
        assert(!key.contains(':')) by {
            if key.contains(':') {
                let i = choose|i: int| 0 <= i < key.len() && key[i] == ':';
                assert(lhs[i] == ':');
            }
        }
        assert(!key.contains('=')) by {
            if key.contains('=') {
                let i = choose|i: int| 0 <= i < key.len() && key[i] == '=';
                assert(t[i] == '=');
            }
        }
        assert(!is_comment(key));
        assert(v.value == value);
        assert(v.name == bare_name(key));
        assert(key_of(v) =~= key) by {
            if is_advanced_key(key) {
                assert(bare_name(key) + advanced_suffix() =~= key);
            }
        }
        if !v.advanced {
            assert(v.name == key);
        }
        let ta = leading_space(line);
        assert forall|i: int| 0 <= i < t.len() implies line.contains(#[trigger] t[i]) by {
            assert(line[ta + i] == t[i]);
        }
        assert forall|i: int| 0 <= i < v.name.len() implies line.contains(#[trigger] v.name[i]) by {
            assert(v.name[i] == key[i]);
            assert(key[i] == t[i]);
        }
        let ra = leading_space(right);
        assert forall|i: int| 0 <= i < v.value.len() implies line.contains(
            #[trigger] v.value[i],
        ) by {
            assert(value[i] == right[ra + i]);
            assert(right[ra + i] == t[eq + 1 + ra + i]);
        }
    }
}

/// A variable that a line declares has a name: the name is not empty.
pub proof fn lemma_parsed_has_name(line: Seq<char>)
    ensures
        parse_line(line) matches Ok(v) ==> v.name.len() > 0,
{
}

/// A variable that a line declared is read back from the line that is written
/// for it: writing and reading again changes nothing more.
pub proof fn lemma_parse_format_parsed(line: Seq<char>)
    ensures
        parse_line(line) matches Ok(v) ==> parse_line(format_variable(v)) == Ok::<
            VariableView,
            ErrorView,
        >(v),
{
    lemma_parsed_is_canonical(line);
    if let Ok(v) = parse_line(line) {
        lemma_parse_format(v);
    }
}

} // verus!
