//! What holds of patching: a patch that holds nothing leaves a text in
//! canonical form as it is, a patch applied twice does no more than applied
//! once, and a patched text read again holds the variables of the patch in
//! place of the old ones.
use crate::cpp::builder::cmake_cache::{
    advanced_suffix, cachefile_dir_name, declares, empty_cache, format_variable, generator_name,
    home_directory_name, lemma_names_in_push, load, names_in, parse_line, patch_data, patch_line,
    patch_tail, patched_text, patched_variable, read_line, read_lines, record, CMakeVariableType,
    CacheView, VariableView,
};
use crate::cpp::builder::codec_laws::{
    canonical_line, is_canonical_key, is_canonical_variable, key_of, lemma_format_parse_canonical,
    lemma_parse_format, lemma_parse_format_parsed, lemma_parsed_is_canonical, lemma_spelling,
};
use crate::cpp::builder::variables::{ascending, has_key, lemma_map_of, map_of, position_of};
use crate::error::ErrorView;
use crate::lines::{
    is_line, is_text, join_lines, lemma_join_lines_concat, lemma_lines_of_joined,
    lemma_lines_of_joined_text, lemma_text_lines_no_feed, text_lines, without_return,
};
use crate::text::{is_trimmed, lemma_trim_push, trim};
use vstd::prelude::*;
use vstd::utf8::encode_utf8;

verus! {

/// Whether the variable `v` can stand in a patch under the name `key`: it
/// bears that name, is read back from its own line, and holds no line feed.
pub open spec fn is_patch_entry(key: Seq<char>, v: VariableView) -> bool {
    &&& v.name == key
    &&& is_canonical_variable(v)
    &&& !v.name.contains('\n')
    &&& !v.value.contains('\n')
}

/// Whether `entries` are those of a patch whose variables can all stand in it.
pub open spec fn is_patch(entries: Seq<(Seq<char>, VariableView)>) -> bool {
    &&& ascending(entries)
    &&& forall|i: int|
        0 <= i < entries.len() ==> is_patch_entry((#[trigger] entries[i]).0, entries[i].1)
}

/// Whether every variable of the map `patch` can stand in a patch under its
/// name.
pub open spec fn is_patch_map(patch: Map<Seq<char>, VariableView>) -> bool {
    forall|key: Seq<char>| #[trigger] patch.contains_key(key) ==> is_patch_entry(key, patch[key])
}

/// Whether the variable `v` can stand under the name `key` in a patch that
/// is applied again and again: its line declares that name and holds no line
/// feed.
pub open spec fn is_repeatable_entry(key: Seq<char>, v: VariableView) -> bool {
    &&& declares(format_variable(v), key)
    &&& !format_variable(v).contains('\n')
}

/// Whether `entries` are those of a patch that can be applied again and
/// again.
pub open spec fn is_repeatable(entries: Seq<(Seq<char>, VariableView)>) -> bool {
    &&& ascending(entries)
    &&& forall|i: int|
        0 <= i < entries.len() ==> is_repeatable_entry((#[trigger] entries[i]).0, entries[i].1)
}

/// Whether every variable of the map `patch` can stand under its name in a
/// patch that is applied again and again.
pub open spec fn is_repeatable_map(patch: Map<Seq<char>, VariableView>) -> bool {
    forall|key: Seq<char>| #[trigger]
        patch.contains_key(key) ==> is_repeatable_entry(key, patch[key])
}

/// Whether `data` is a text whose lines come back as they are when they are
/// written out and split again: every line is UTF-8, and no line that
/// declares no variable ends with a carriage return.
pub open spec fn is_plain(data: Seq<u8>) -> bool {
    &&& is_text(data)
    &&& forall|i: int|
        0 <= i < text_lines(data).len() && parse_line(#[trigger] text_lines(data)[i]) is Err
            && text_lines(data)[i].len() > 0 ==> text_lines(data)[i].last() != '\r'
}

/// Whether writing `line` anew leaves it as it is: it declares no variable,
/// or it is the line of the variable that it declares.
pub open spec fn is_stable(line: Seq<char>) -> bool {
    patch_line(line, Map::empty()) == line
}

/// The lines that are added for the entries of a patch whose names are not
/// among `seen`: for each, an empty line and the line of the variable.
pub open spec fn tail_lines(entries: Seq<(Seq<char>, VariableView)>, seen: Set<Seq<char>>) -> Seq<
    Seq<char>,
>
    decreases entries.len(),
{
    if entries.len() == 0 {
        Seq::empty()
    } else {
        tail_lines(entries.drop_last(), seen) + (if seen.contains(entries.last().0) {
            Seq::<Seq<char>>::empty()
        } else {
            seq![Seq::<char>::empty(), format_variable(entries.last().1)]
        })
    }
}

/// The lines of the patched text.
pub open spec fn patched_lines(lines: Seq<Seq<char>>, entries: Seq<(Seq<char>, VariableView)>) -> Seq<
    Seq<char>,
> {
    lines.map_values(|line: Seq<char>| patch_line(line, map_of(entries))) + tail_lines(
        entries,
        names_in(lines),
    )
}

/// The table `table` with the variables of `patch` in the place of those of
/// the same names: a variable of the patch stands in it unless its type is
/// `Internal`, and no variable of `table` stands under a name of the patch.
pub open spec fn patched_table(
    table: Map<Seq<char>, VariableView>,
    patch: Map<Seq<char>, VariableView>,
) -> Map<Seq<char>, VariableView> {
    Map::new(
        |key: Seq<char>|
            if patch.contains_key(key) {
                patch[key].var_type != CMakeVariableType::Internal
            } else {
                table.contains_key(key)
            },
        |key: Seq<char>|
            if patch.contains_key(key) {
                patch[key]
            } else {
                table[key]
            },
    )
}

/// A field that is taken from the variable named `name`, after a patch: the
/// value of the variable of the patch, where the patch holds that name.
pub open spec fn patched_field(
    field: Option<Seq<char>>,
    patch: Map<Seq<char>, VariableView>,
    name: Seq<char>,
) -> Option<Seq<char>> {
    if patch.contains_key(name) {
        Some(patch[name].value)
    } else {
        field
    }
}

/// The cache `c` with the variables of `patch` in the place of those of the
/// same names.
pub open spec fn patched_cache(c: CacheView, patch: Map<Seq<char>, VariableView>) -> CacheView {
    CacheView {
        source_dir: patched_field(c.source_dir, patch, home_directory_name()),
        build_dir: patched_field(c.build_dir, patch, cachefile_dir_name()),
        generator: patched_field(c.generator, patch, generator_name()),
        variables: patched_table(c.variables, patch),
    }
}

/// The entries of a patch make a map whose variables can all stand in it.
pub proof fn lemma_patch_map(entries: Seq<(Seq<char>, VariableView)>)
    requires
        is_patch(entries),
    ensures
        is_patch_map(map_of(entries)),
        forall|i: int|
            0 <= i < entries.len() ==> map_of(entries).contains_key(#[trigger] entries[i].0)
                && map_of(entries)[entries[i].0] == entries[i].1,
{
    lemma_map_of(entries);
    assert forall|key: Seq<char>| #[trigger]
        map_of(entries).contains_key(key) implies is_patch_entry(key, map_of(entries)[key]) by {
        let i = position_of(entries, key);
        assert(entries[i].0 == key);
    }
}

/// What is added for the new names is the added lines joined.
pub proof fn lemma_patch_tail_lines(entries: Seq<(Seq<char>, VariableView)>, seen: Set<Seq<char>>)
    ensures
        patch_tail(entries, seen) == join_lines(tail_lines(entries, seen)),
    decreases entries.len(),
{
    if entries.len() > 0 {
        let head = entries.drop_last();
        lemma_patch_tail_lines(head, seen);
        if seen.contains(entries.last().0) {
            assert(tail_lines(entries, seen) =~= tail_lines(head, seen));
            assert(patch_tail(entries, seen) =~= patch_tail(head, seen));
        } else {
            let two = seq![Seq::<char>::empty(), format_variable(entries.last().1)];
            lemma_join_lines_concat(tail_lines(head, seen), two);
            let one = two.drop_last();
            assert(one.len() == 1 && one.last() == Seq::<char>::empty());
            assert(one.drop_last() =~= Seq::<Seq<char>>::empty());
            assert(join_lines(one.drop_last()) =~= Seq::<char>::empty());
            assert(join_lines(one) =~= seq!['\n']);
            assert(join_lines(two) =~= seq!['\n'] + format_variable(entries.last().1) + seq![
                '\n',
            ]);
        }
    }
}

/// The patched text is its lines joined.
pub proof fn lemma_patched_text(lines: Seq<Seq<char>>, entries: Seq<(Seq<char>, VariableView)>)
    ensures
        patched_text(lines, entries) == join_lines(patched_lines(lines, entries)),
{
    lemma_patch_tail_lines(entries, names_in(lines));
    lemma_join_lines_concat(
        lines.map_values(|line: Seq<char>| patch_line(line, map_of(entries))),
        tail_lines(entries, names_in(lines)),
    );
}

/// The line of a canonical variable without a line feed can stand as a line.
pub proof fn lemma_format_is_line(v: VariableView)
    requires
        is_canonical_variable(v),
        !v.name.contains('\n'),
        !v.value.contains('\n'),
    ensures
        is_line(format_variable(v)),
{
    let line = format_variable(v);
    let key = key_of(v);
    let sp = v.var_type.spelling();
    lemma_spelling(v.var_type);
    lemma_parse_format(v);
    reveal_strlit("-ADVANCED");
    assert(line == key + seq![':'] + sp + seq!['='] + v.value);
    assert(!key.contains('\n')) by {
        if key.contains('\n') {
            let i = choose|i: int| 0 <= i < key.len() && key[i] == '\n';
            if i < v.name.len() {
                assert(v.name[i] == '\n');
            } else {
                assert(advanced_suffix()[i - v.name.len()] == '\n');
            }
        }
    }
    if line.contains('\n') {
        let i = choose|i: int| 0 <= i < line.len() && line[i] == '\n';
        if i < key.len() {
            assert(key[i] == '\n');
        } else if i == key.len() {
        } else if i < key.len() + 1 + sp.len() {
            assert(sp[i - key.len() - 1] == '\n');
        } else if i == key.len() + 1 + sp.len() {
        } else {
            assert(v.value[i - key.len() - sp.len() - 2] == '\n');
        }
    }
    if v.value.len() > 0 {
        assert(line.last() == v.value.last());
    } else {
        assert(line.last() == '=');
    }
}

/// What a patched line declares: the patched variable of what the line
/// declared, under the same name; a line that declared nothing still declares
/// nothing.
pub proof fn lemma_parse_patched_line(line: Seq<char>, patch: Map<Seq<char>, VariableView>)
    requires
        is_patch_map(patch),
    ensures
        parse_line(line) is Err ==> patch_line(line, patch) == line,
        parse_line(line) matches Ok(v) ==> parse_line(patch_line(line, patch)) == Ok::<
            VariableView,
            ErrorView,
        >(patched_variable(v, patch)) && patched_variable(v, patch).name == v.name,
        forall|name: Seq<char>| declares(patch_line(line, patch), name) <==> declares(line, name),
        patch_line(patch_line(line, patch), patch) == patch_line(line, patch),
{
    if let Ok(v) = parse_line(line) {
        let w = patched_variable(v, patch);
        if patch.contains_key(v.name) {
            lemma_parse_format(w);
        } else {
            lemma_parse_format_parsed(line);
        }
        assert(patched_variable(w, patch) == w);
    }
}

/// Where every name of the entries was seen, no lines are added.
pub proof fn lemma_tail_lines_all_seen(
    entries: Seq<(Seq<char>, VariableView)>,
    seen: Set<Seq<char>>,
)
    requires
        forall|i: int| 0 <= i < entries.len() ==> seen.contains(#[trigger] entries[i].0),
    ensures
        tail_lines(entries, seen) == Seq::<Seq<char>>::empty(),
    decreases entries.len(),
{
    if entries.len() > 0 {
        let head = entries.drop_last();
        assert forall|i: int| 0 <= i < head.len() implies seen.contains(#[trigger] head[i].0) by {
            assert(head[i] == entries[i]);
        }
        lemma_tail_lines_all_seen(head, seen);
        assert(seen.contains(entries[entries.len() - 1].0));
        assert(tail_lines(entries, seen) =~= Seq::<Seq<char>>::empty());
    }
}

/// A line declares the same with and without a carriage return at its end.
pub proof fn lemma_parse_without_return(line: Seq<char>)
    ensures
        parse_line(without_return(line)) == parse_line(line),
{
    if line.len() > 0 && line.last() == '\r' {
        assert(line =~= line.drop_last().push('\r'));
        lemma_trim_push(line.drop_last(), '\r');
    }
}

/// A variable that can stand in a patch can stand in one that is applied
/// again and again.
pub proof fn lemma_patch_is_repeatable(entries: Seq<(Seq<char>, VariableView)>)
    requires
        is_patch(entries),
    ensures
        is_repeatable(entries),
{
    assert forall|i: int| 0 <= i < entries.len() implies is_repeatable_entry(
        (#[trigger] entries[i]).0,
        entries[i].1,
    ) by {
        lemma_parse_format(entries[i].1);
        lemma_format_is_line(entries[i].1);
    }
}

/// The entries of a patch that can be applied again and again make a map
/// whose variables can all stand in it.
proof fn lemma_repeatable_map(entries: Seq<(Seq<char>, VariableView)>)
    requires
        is_repeatable(entries),
    ensures
        is_repeatable_map(map_of(entries)),
        forall|i: int|
            0 <= i < entries.len() ==> map_of(entries).contains_key(#[trigger] entries[i].0)
                && map_of(entries)[entries[i].0] == entries[i].1,
{
    lemma_map_of(entries);
    assert forall|key: Seq<char>| #[trigger]
        map_of(entries).contains_key(key) implies is_repeatable_entry(key, map_of(entries)[key]) by {
        let i = position_of(entries, key);
        assert(entries[i].0 == key);
    }
}

/// The line of a variable of a repeatable patch, written out and read again,
/// gives way to itself.
proof fn lemma_repeatable_entry_line(key: Seq<char>, patch: Map<Seq<char>, VariableView>)
    requires
        is_repeatable_map(patch),
        patch.contains_key(key),
    ensures
        !format_variable(patch[key]).contains('\n'),
        declares(without_return(format_variable(patch[key])), key),
        patch_line(without_return(format_variable(patch[key])), patch) == format_variable(
            patch[key],
        ),
{
    lemma_parse_without_return(format_variable(patch[key]));
}

/// The line that is written anew for what a line without line feed declares
/// can stand as a line.
proof fn lemma_written_anew_is_line(line: Seq<char>)
    requires
        !line.contains('\n'),
    ensures
        parse_line(line) matches Ok(v) ==> is_line(format_variable(v)),
{
    if let Ok(v) = parse_line(line) {
        lemma_parsed_is_canonical(line);
        assert(!v.name.contains('\n')) by {
            if v.name.contains('\n') {
                let i = choose|i: int| 0 <= i < v.name.len() && v.name[i] == '\n';
                assert(line.contains(v.name[i]));
            }
        }
        assert(!v.value.contains('\n')) by {
            if v.value.contains('\n') {
                let i = choose|i: int| 0 <= i < v.value.len() && v.value[i] == '\n';
                assert(line.contains(v.value[i]));
            }
        }
        lemma_format_is_line(v);
    }
}

/// A patched line holds no line feed if the line held none.
proof fn lemma_patched_line_no_feed(line: Seq<char>, patch: Map<Seq<char>, VariableView>)
    requires
        is_repeatable_map(patch),
        !line.contains('\n'),
    ensures
        !patch_line(line, patch).contains('\n'),
{
    lemma_written_anew_is_line(line);
}

/// A patched line of a plain text, written out and read again, gives way to
/// itself, and declares what the line declared.
proof fn lemma_repeatable_line(line: Seq<char>, patch: Map<Seq<char>, VariableView>)
    requires
        is_repeatable_map(patch),
        !line.contains('\n'),
        parse_line(line) is Err && line.len() > 0 ==> line.last() != '\r',
    ensures
        patch_line(without_return(patch_line(line, patch)), patch) == patch_line(line, patch),
        forall|name: Seq<char>|
            declares(line, name) ==> declares(without_return(patch_line(line, patch)), name),
{
    if let Ok(v) = parse_line(line) {
        if patch.contains_key(v.name) {
            lemma_repeatable_entry_line(v.name, patch);
        } else {
            lemma_written_anew_is_line(line);
            lemma_parse_format_parsed(line);
        }
    }
}

/// The lines that are added for new names by a repeatable patch hold no line
/// feed, give way to themselves when they are written out and read again,
/// and declare the names for which they were added.
proof fn lemma_repeatable_tail(entries: Seq<(Seq<char>, VariableView)>, seen: Set<Seq<char>>)
    requires
        is_repeatable(entries),
    ensures
        forall|i: int|
            0 <= i < tail_lines(entries, seen).len() ==> !(#[trigger] tail_lines(
                entries,
                seen,
            )[i]).contains('\n'),
        forall|i: int|
            0 <= i < tail_lines(entries, seen).len() ==> patch_line(
                without_return(#[trigger] tail_lines(entries, seen)[i]),
                map_of(entries),
            ) == tail_lines(entries, seen)[i],
        forall|i: int|
            #![trigger entries[i]]
            0 <= i < entries.len() && !seen.contains(entries[i].0) ==> exists|j: int|
                0 <= j < tail_lines(entries, seen).len() && declares(
                    without_return(#[trigger] tail_lines(entries, seen)[j]),
                    entries[i].0,
                ),
    decreases entries.len(),
{
    let lines = tail_lines(entries, seen);
    let table = map_of(entries);
    lemma_repeatable_map(entries);
    if entries.len() > 0 {
        let head = entries.drop_last();
        let last = entries.last();
        assert(is_repeatable(head)) by {
            assert forall|i: int| 0 <= i < head.len() implies is_repeatable_entry(
                (#[trigger] head[i]).0,
                head[i].1,
            ) by {
                assert(head[i] == entries[i]);
            }
        }
        lemma_repeatable_map(head);
        lemma_repeatable_tail(head, seen);
        let before = tail_lines(head, seen);
        let empty = Seq::<char>::empty();
        assert(trim(empty) =~= empty);
        assert(parse_line(empty) is Err);
        assert(table.contains_key(entries[entries.len() - 1].0));
        lemma_repeatable_entry_line(last.0, table);
        assert forall|i: int| 0 <= i < lines.len() implies !(#[trigger] lines[i]).contains('\n')
            && patch_line(without_return(lines[i]), table) == lines[i] by {
            if i < before.len() {
                assert(lines[i] == before[i]);
                let l = without_return(before[i]);
                assert(patch_line(l, map_of(head)) == before[i]);
                if let Ok(v) = parse_line(l) {
                    if map_of(head).contains_key(v.name) {
                        let j = position_of(head, v.name);
                        assert(head[j] == entries[j]);
                        assert(table.contains_key(entries[j].0));
                    } else {
                        // written anew from what it declares, the line is
                        // one of a variable of the patch
                        lemma_tail_line_names(head, seen, i);
                        assert(false);
                    }
                }
            }
        }
        assert forall|i: int|
            #![trigger entries[i]]
            0 <= i < entries.len() && !seen.contains(entries[i].0) implies exists|j: int|
                0 <= j < lines.len() && declares(without_return(#[trigger] lines[j]), entries[i].0) by {
            if i < head.len() {
                assert(head[i] == entries[i]);
                let j = choose|j: int|
                    0 <= j < before.len() && declares(
                        without_return(#[trigger] before[j]),
                        head[i].0,
                    );
                assert(lines[j] == before[j]);
            } else {
                assert(lines[lines.len() - 1] == format_variable(last.1));
            }
        }
    }
}

/// A line that was added for a new name by a repeatable patch, written out
/// and read, declares nothing or a name of the patch.
proof fn lemma_tail_line_names(
    entries: Seq<(Seq<char>, VariableView)>,
    seen: Set<Seq<char>>,
    i: int,
)
    requires
        is_repeatable(entries),
        0 <= i < tail_lines(entries, seen).len(),
    ensures
        parse_line(without_return(tail_lines(entries, seen)[i])) matches Ok(v) ==> map_of(
            entries,
        ).contains_key(v.name),
    decreases entries.len(),
{
    lemma_repeatable_map(entries);
    let lines = tail_lines(entries, seen);
    let head = entries.drop_last();
    let last = entries.last();
    let before = tail_lines(head, seen);
    assert(is_repeatable(head)) by {
        assert forall|k: int| 0 <= k < head.len() implies is_repeatable_entry(
            (#[trigger] head[k]).0,
            head[k].1,
        ) by {
            assert(head[k] == entries[k]);
        }
    }
    if i < before.len() {
        lemma_tail_line_names(head, seen, i);
        lemma_repeatable_map(head);
        assert(lines[i] == before[i]);
        if let Ok(v) = parse_line(without_return(before[i])) {
            let j = position_of(head, v.name);
            assert(head[j] == entries[j]);
            assert(map_of(entries).contains_key(entries[j].0));
        }
    } else {
        let empty = Seq::<char>::empty();
        assert(trim(empty) =~= empty);
        assert(parse_line(empty) is Err);
        assert(map_of(entries).contains_key(entries[entries.len() - 1].0));
        lemma_repeatable_entry_line(last.0, map_of(entries));
    }
}

/// The bytes of a patched text fall back into the lines of the patched text,
/// each without the carriage return at its end.
pub proof fn lemma_lines_of_patched_text(data: Seq<u8>, entries: Seq<(Seq<char>, VariableView)>)
    requires
        is_text(data),
        is_repeatable(entries),
    ensures
        patch_data(data, entries) == Ok::<Seq<char>, ErrorView>(
            patched_text(text_lines(data), entries),
        ),
        patched_text(text_lines(data), entries) == join_lines(
            patched_lines(text_lines(data), entries),
        ),
        is_text(encode_utf8(patched_text(text_lines(data), entries))),
        text_lines(encode_utf8(patched_text(text_lines(data), entries))) == patched_lines(
            text_lines(data),
            entries,
        ).map_values(|line: Seq<char>| without_return(line)),
{
    let lines = text_lines(data);
    let table = map_of(entries);
    let after = patched_lines(lines, entries);
    let tail = tail_lines(entries, names_in(lines));
    lemma_repeatable_map(entries);
    lemma_patched_text(lines, entries);
    lemma_text_lines_no_feed(data);
    lemma_repeatable_tail(entries, names_in(lines));
    assert forall|i: int| 0 <= i < after.len() implies !(#[trigger] after[i]).contains('\n') by {
        if i < lines.len() {
            assert(after[i] == patch_line(lines[i], table));
            lemma_patched_line_no_feed(lines[i], table);
        } else {
            assert(after[i] == tail[i - lines.len()]);
        }
    }
    lemma_lines_of_joined_text(after);
}

/// Lines read without the carriage returns at their ends give what the lines
/// themselves give.
proof fn lemma_read_without_returns(c: CacheView, lines: Seq<Seq<char>>)
    ensures
        read_lines(c, lines.map_values(|line: Seq<char>| without_return(line))) == read_lines(
            c,
            lines,
        ),
    decreases lines.len(),
{
    let stripped = lines.map_values(|line: Seq<char>| without_return(line));
    if lines.len() > 0 {
        let head = lines.drop_last();
        lemma_read_without_returns(c, head);
        assert(stripped.drop_last() =~= head.map_values(|line: Seq<char>| without_return(line)));
        assert(stripped.last() == without_return(lines.last()));
        lemma_parse_without_return(lines.last());
    }
}

/// Patching a second time with the same patch changes nothing: a patch
/// applied to a plain text, and applied again to the bytes of the result,
/// gives the result of the first time.
pub proof fn lemma_patch_twice(data: Seq<u8>, entries: Seq<(Seq<char>, VariableView)>)
    requires
        is_plain(data),
        is_repeatable(entries),
    ensures
        patch_data(data, entries) matches Ok(once) && patch_data(encode_utf8(once), entries)
            == Ok::<Seq<char>, ErrorView>(once),
{
    let lines = text_lines(data);
    let table = map_of(entries);
    let once = patched_text(lines, entries);
    let after = patched_lines(lines, entries);
    let body = lines.map_values(|line: Seq<char>| patch_line(line, table));
    let tail = tail_lines(entries, names_in(lines));
    lemma_repeatable_map(entries);
    lemma_text_lines_no_feed(data);
    lemma_repeatable_tail(entries, names_in(lines));
    lemma_lines_of_patched_text(data, entries);
    assert forall|i: int| 0 <= i < after.len() implies patch_line(
        without_return(#[trigger] after[i]),
        table,
    ) == after[i] by {
        if i < lines.len() {
            assert(after[i] == patch_line(lines[i], table));
            lemma_repeatable_line(lines[i], table);
        } else {
            assert(after[i] == tail[i - lines.len()]);
        }
    }
    let read = after.map_values(|line: Seq<char>| without_return(line));
    let again = read.map_values(|line: Seq<char>| patch_line(line, table));
    assert(again =~= after);
    assert forall|j: int| 0 <= j < entries.len() implies names_in(read).contains(
        #[trigger] entries[j].0,
    ) by {
        let key = entries[j].0;
        if names_in(lines).contains(key) {
            let i = choose|i: int| 0 <= i < lines.len() && declares(lines[i], key);
            lemma_repeatable_line(lines[i], table);
            assert(after[i] == patch_line(lines[i], table));
            assert(declares(read[i], key));
        } else {
            let i = choose|i: int|
                0 <= i < tail.len() && declares(without_return(#[trigger] tail[i]), key);
            assert(after[lines.len() + i] == tail[i]);
            assert(declares(read[lines.len() + i], key));
        }
    }
    lemma_tail_lines_all_seen(entries, names_in(read));
    assert(patched_lines(read, entries) =~= after);
    lemma_patched_text(read, entries);
}

/// A patch that holds nothing leaves a text in canonical form as it is: where
/// every line can stand as a line and is stable, the patched text is the text,
/// byte for byte.
pub proof fn lemma_patch_nothing(lines: Seq<Seq<char>>)
    requires
        forall|i: int| 0 <= i < lines.len() ==> is_line(#[trigger] lines[i]),
        forall|i: int| 0 <= i < lines.len() ==> is_stable(#[trigger] lines[i]),
    ensures
        patch_data(encode_utf8(join_lines(lines)), Seq::empty()) == Ok::<Seq<char>, ErrorView>(
            join_lines(lines),
        ),
{
    let entries = Seq::<(Seq<char>, VariableView)>::empty();
    let data = encode_utf8(join_lines(lines));
    lemma_lines_of_joined(lines);
    assert(map_of(entries) =~= Map::<Seq<char>, VariableView>::empty());
    let body = lines.map_values(|line: Seq<char>| patch_line(line, map_of(entries)));
    assert(body =~= lines);
    assert(patched_lines(lines, entries) =~= lines);
    lemma_patched_text(lines, entries);
}

/// Whether `data` is a cache text in canonical form: every line is UTF-8 and
/// ends with a line feed without a carriage return before it, and every line
/// is stable.
pub open spec fn is_canonical_text(data: Seq<u8>) -> bool {
    &&& is_text(data)
    &&& data == encode_utf8(join_lines(text_lines(data)))
    &&& forall|i: int| 0 <= i < text_lines(data).len() ==> is_stable(#[trigger] text_lines(data)[i])
}

/// A patch that holds nothing gives a text in canonical form back, byte for
/// byte.
pub proof fn lemma_patch_canonical_text(data: Seq<u8>)
    requires
        is_canonical_text(data),
    ensures
        patch_data(data, Seq::empty()) matches Ok(text) && encode_utf8(text) == data,
{
    let entries = Seq::<(Seq<char>, VariableView)>::empty();
    let lines = text_lines(data);
    assert(map_of(entries) =~= Map::<Seq<char>, VariableView>::empty());
    let body = lines.map_values(|line: Seq<char>| patch_line(line, map_of(entries)));
    assert(body =~= lines);
    assert(patched_lines(lines, entries) =~= lines);
    lemma_patched_text(lines, entries);
}

/// A line in canonical form is stable.
pub proof fn lemma_canonical_line_is_stable(
    key: Seq<char>,
    kind: CMakeVariableType,
    value: Seq<char>,
)
    requires
        is_canonical_key(key),
        is_trimmed(value),
    ensures
        is_stable(canonical_line(key, kind, value)),
{
    lemma_format_parse_canonical(key, kind, value);
}

/// Reading lines after other lines is reading them all.
pub proof fn lemma_read_lines_concat(c: CacheView, a: Seq<Seq<char>>, b: Seq<Seq<char>>)
    ensures
        read_lines(c, a + b) == read_lines(read_lines(c, a), b),
    decreases b.len(),
{
    if b.len() == 0 {
        assert(a + b =~= a);
    } else {
        lemma_read_lines_concat(c, a, b.drop_last());
        assert((a + b).drop_last() =~= a + b.drop_last());
        assert((a + b).last() == b.last());
    }
}

/// The three well-known names differ from one another.
proof fn lemma_well_known_names()
    ensures
        home_directory_name() != cachefile_dir_name(),
        home_directory_name() != generator_name(),
        cachefile_dir_name() != generator_name(),
{
    reveal_strlit("CMAKE_HOME_DIRECTORY");
    reveal_strlit("CMAKE_CACHEFILE_DIR");
    reveal_strlit("CMAKE_GENERATOR");
    assert(home_directory_name()[6] == 'H');
    assert(cachefile_dir_name()[6] == 'C');
    assert(generator_name()[6] == 'G');
}

/// How the table read from patched lines stands to the table read from the
/// lines, at the name `key`, before the lines for new names are read.
spec fn table_agrees(
    c: CacheView,
    d: CacheView,
    seen: Set<Seq<char>>,
    patch: Map<Seq<char>, VariableView>,
    key: Seq<char>,
) -> bool {
    &&& c.variables.contains_key(key) ==> seen.contains(key)
    &&& if patch.contains_key(key) {
        &&& d.variables.contains_key(key) <==> seen.contains(key) && patch[key].var_type
            != CMakeVariableType::Internal
        &&& d.variables.contains_key(key) ==> d.variables[key] == patch[key]
    } else {
        &&& d.variables.contains_key(key) <==> c.variables.contains_key(key)
        &&& d.variables.contains_key(key) ==> d.variables[key] == c.variables[key]
    }
}

/// How a field read from patched lines stands to the field read from the
/// lines, before the lines for new names are read.
spec fn field_agrees(
    field: Option<Seq<char>>,
    patched: Option<Seq<char>>,
    seen: Set<Seq<char>>,
    patch: Map<Seq<char>, VariableView>,
    name: Seq<char>,
) -> bool {
    &&& field is Some ==> seen.contains(name)
    &&& patched == if patch.contains_key(name) && seen.contains(name) {
        Some(patch[name].value)
    } else {
        field
    }
}

/// What is read from the patched lines of a text, before the lines for new
/// names: under a name of the patch that the text declares, the variable of
/// the patch; under any other name what the text itself gives.
proof fn lemma_read_patched_body(lines: Seq<Seq<char>>, patch: Map<Seq<char>, VariableView>)
    requires
        is_patch_map(patch),
    ensures
        ({
            let c = read_lines(empty_cache(), lines);
            let d = read_lines(
                empty_cache(),
                lines.map_values(|line: Seq<char>| patch_line(line, patch)),
            );
            let seen = names_in(lines);
            &&& forall|key: Seq<char>| #[trigger] table_agrees(c, d, seen, patch, key)
            &&& field_agrees(c.source_dir, d.source_dir, seen, patch, home_directory_name())
            &&& field_agrees(c.build_dir, d.build_dir, seen, patch, cachefile_dir_name())
            &&& field_agrees(c.generator, d.generator, seen, patch, generator_name())
        }),
    decreases lines.len(),
{
    let patched = lines.map_values(|line: Seq<char>| patch_line(line, patch));
    let c = read_lines(empty_cache(), lines);
    let d = read_lines(empty_cache(), patched);
    let seen = names_in(lines);
    lemma_well_known_names();
    if lines.len() == 0 {
        assert forall|key: Seq<char>| #[trigger] table_agrees(c, d, seen, patch, key) by {}
    } else {
        let head = lines.drop_last();
        let line = lines.last();
        let c0 = read_lines(empty_cache(), head);
        let d0 = read_lines(
            empty_cache(),
            head.map_values(|line: Seq<char>| patch_line(line, patch)),
        );
        let seen0 = names_in(head);
        lemma_read_patched_body(head, patch);
        assert(patched.drop_last() =~= head.map_values(|line: Seq<char>| patch_line(line, patch)));
        assert(patched.last() == patch_line(line, patch));
        assert(c == read_line(c0, line));
        assert(d == read_line(d0, patch_line(line, patch)));
        lemma_parse_patched_line(line, patch);
        assert(lines =~= head.push(line));
        lemma_names_in_push(head, line);
        assert forall|key: Seq<char>| #[trigger] table_agrees(c, d, seen, patch, key) by {
            assert(table_agrees(c0, d0, seen0, patch, key));
        }
    }
}

/// What is read from the lines that are added for the first `n` entries of a
/// patch, after the cache `d`: the variables of the entries whose names were
/// not seen, on top of what `d` holds.
proof fn lemma_read_tail(
    d: CacheView,
    entries: Seq<(Seq<char>, VariableView)>,
    seen: Set<Seq<char>>,
    n: int,
)
    requires
        is_patch(entries),
        0 <= n <= entries.len(),
    ensures
        ({
            let e = read_lines(d, tail_lines(entries.take(n), seen));
            let table = map_of(entries);
            let added = |key: Seq<char>| has_key(entries.take(n), key) && !seen.contains(key);
            &&& forall|key: Seq<char>|
                #![trigger e.variables.contains_key(key)]
                {
                    &&& e.variables.contains_key(key) <==> (added(key) && table[key].var_type
                        != CMakeVariableType::Internal) || d.variables.contains_key(key)
                    &&& e.variables.contains_key(key) ==> e.variables[key] == if added(key)
                        && table[key].var_type != CMakeVariableType::Internal {
                        table[key]
                    } else {
                        d.variables[key]
                    }
                }
            &&& e.source_dir == if added(home_directory_name()) {
                Some(table[home_directory_name()].value)
            } else {
                d.source_dir
            }
            &&& e.build_dir == if added(cachefile_dir_name()) {
                Some(table[cachefile_dir_name()].value)
            } else {
                d.build_dir
            }
            &&& e.generator == if added(generator_name()) {
                Some(table[generator_name()].value)
            } else {
                d.generator
            }
        }),
    decreases n,
{
    let table = map_of(entries);
    let taken = entries.take(n);
    let e = read_lines(d, tail_lines(taken, seen));
    lemma_well_known_names();
    lemma_patch_map(entries);
    if n == 0 {
        assert(tail_lines(taken, seen) =~= Seq::<Seq<char>>::empty());
        assert forall|key: Seq<char>| !has_key(taken, key) by {}
    } else {
        let before = entries.take(n - 1);
        let last = entries[n - 1];
        assert(taken.drop_last() =~= before);
        assert(taken.last() == last);
        lemma_read_tail(d, entries, seen, n - 1);
        let e0 = read_lines(d, tail_lines(before, seen));
        assert forall|key: Seq<char>|
            has_key(taken, key) <==> has_key(before, key) || key == last.0 by {
            if has_key(taken, key) {
                let i = position_of(taken, key);
                if i < n - 1 {
                    assert(before[i].0 == key);
                }
            }
            if has_key(before, key) {
                let i = position_of(before, key);
                assert(taken[i].0 == key);
            }
            if key == last.0 {
                assert(taken[n - 1].0 == key);
            }
        }
        lemma_map_of(entries);
        assert(!has_key(before, last.0)) by {
            if has_key(before, last.0) {
                let i = position_of(before, last.0);
                assert(before[i] == entries[i]);
                assert(entries[i].0 == entries[n - 1].0);
            }
        }
        assert(table.contains_key(entries[n - 1].0) && table[last.0] == last.1);
        if seen.contains(last.0) {
            assert(tail_lines(taken, seen) =~= tail_lines(before, seen));
        } else {
            let two = seq![Seq::<char>::empty(), format_variable(last.1)];
            lemma_read_lines_concat(d, tail_lines(before, seen), two);
            let one = two.drop_last();
            assert(one.drop_last() =~= Seq::<Seq<char>>::empty());
            assert(one.last() == Seq::<char>::empty());
            assert(trim(Seq::<char>::empty()) =~= Seq::<char>::empty());
            assert(parse_line(Seq::<char>::empty()) is Err);
            assert(read_lines(e0, one.drop_last()) == e0);
            assert(read_lines(e0, one) == read_line(e0, Seq::<char>::empty()));
            assert(read_lines(e0, one) == e0);
            assert(two.last() == format_variable(last.1));
            lemma_parse_format(last.1);
            assert(read_lines(e0, two) == record(e0, last.1));
            assert(e == record(e0, last.1));
        }
    }
}

/// A patched text, read again, holds the cache that the text held with the
/// variables of the patch in the place of those of the same names.
pub proof fn lemma_load_patched(data: Seq<u8>, entries: Seq<(Seq<char>, VariableView)>)
    requires
        is_text(data),
        is_patch(entries),
    ensures
        patch_data(data, entries) matches Ok(text) && load(encode_utf8(text)) == patched_cache(
            load(data),
            map_of(entries),
        ),
{
    let lines = text_lines(data);
    let table = map_of(entries);
    let text = patched_text(lines, entries);
    let body = lines.map_values(|line: Seq<char>| patch_line(line, table));
    let seen = names_in(lines);
    let tail = tail_lines(entries, seen);
    lemma_patch_is_repeatable(entries);
    lemma_lines_of_patched_text(data, entries);
    lemma_read_without_returns(empty_cache(), body + tail);
    lemma_patch_map(entries);
    lemma_map_of(entries);
    let c = read_lines(empty_cache(), lines);
    let d = read_lines(empty_cache(), body);
    let e = read_lines(d, tail);
    lemma_read_lines_concat(empty_cache(), body, tail);
    lemma_read_patched_body(lines, table);
    lemma_read_tail(d, entries, seen, entries.len() as int);
    assert(entries.take(entries.len() as int) =~= entries);
    let target = patched_cache(c, table);
    assert(e.variables =~= target.variables) by {
        assert forall|key: Seq<char>|
            e.variables.contains_key(key) <==> target.variables.contains_key(key) by {
            assert(table_agrees(c, d, seen, table, key));
        }
        assert forall|key: Seq<char>| e.variables.contains_key(key) implies e.variables[key]
            == target.variables[key] by {
            assert(table_agrees(c, d, seen, table, key));
        }
    }
    assert(load(encode_utf8(text)) == e);
}

/// The table that is read from lines is finite, and holds only names that
/// the lines declare.
pub proof fn lemma_read_lines_table(lines: Seq<Seq<char>>)
    ensures
        read_lines(empty_cache(), lines).variables.dom().finite(),
        forall|key: Seq<char>| #[trigger]
            read_lines(empty_cache(), lines).variables.contains_key(key) ==> names_in(
                lines,
            ).contains(key),
    decreases lines.len(),
{
    if lines.len() > 0 {
        let head = lines.drop_last();
        let c0 = read_lines(empty_cache(), head);
        let c = read_lines(empty_cache(), lines);
        lemma_read_lines_table(head);
        assert(c == read_line(c0, lines.last()));
        assert(lines =~= head.push(lines.last()));
        lemma_names_in_push(head, lines.last());
        assert forall|key: Seq<char>| #[trigger] c.variables.contains_key(key) implies names_in(
            lines,
        ).contains(key) by {
            if !c0.variables.contains_key(key) {
                assert(declares(lines.last(), key));
            }
        }
    }
}

/// A stable line that declares no variable of the patch stands in the patched
/// text as it stood in the text that was patched.
pub proof fn lemma_stable_line_kept(line: Seq<char>, patch: Map<Seq<char>, VariableView>)
    requires
        is_stable(line),
        forall|name: Seq<char>| declares(line, name) ==> !patch.contains_key(name),
    ensures
        patch_line(line, patch) == line,
{
    if let Ok(v) = parse_line(line) {
        assert(declares(line, v.name));
    }
}

/// A patch of one variable under a name that a text does not declare: the
/// old lines are written anew, and an empty line and the line of the variable
/// are added once at the end. Where the variable can stand in a patch and its
/// type is not `Internal`, the table that is read again holds it under its
/// name besides what it held, one entry more.
pub proof fn lemma_patch_new_name(data: Seq<u8>, key: Seq<char>, v: VariableView)
    requires
        is_text(data),
        !names_in(text_lines(data)).contains(key),
    ensures
        patch_data(data, seq![(key, v)]) == Ok::<Seq<char>, ErrorView>(
            join_lines(
                text_lines(data).map_values(|line: Seq<char>| patch_line(line, Map::empty())),
            ) + seq!['\n'] + format_variable(v) + seq!['\n'],
        ),
        is_patch_entry(key, v) && v.var_type != CMakeVariableType::Internal ==> ({
            let text = patch_data(data, seq![(key, v)])->Ok_0;
            &&& !load(data).variables.contains_key(key)
            &&& load(encode_utf8(text)).variables == load(data).variables.insert(key, v)
            &&& load(encode_utf8(text)).variables.len() == load(data).variables.len() + 1
        }),
{
    let entries = seq![(key, v)];
    let lines = text_lines(data);
    let table = map_of(entries);
    lemma_map_of(entries);
    assert(table.contains_key(entries[0].0));
    assert forall|k: Seq<char>| table.contains_key(k) implies k == key by {
        let i = position_of(entries, k);
    }
    let body = lines.map_values(|line: Seq<char>| patch_line(line, table));
    let anew = lines.map_values(|line: Seq<char>| patch_line(line, Map::empty()));
    assert(body =~= anew) by {
        assert forall|i: int| 0 <= i < lines.len() implies body[i] == anew[i] by {
            if let Ok(w) = parse_line(lines[i]) {
                assert(declares(lines[i], w.name));
                assert(names_in(lines).contains(w.name));
            }
        }
    }
    assert(entries.drop_last() =~= Seq::<(Seq<char>, VariableView)>::empty());
    assert(entries.last() == (key, v));
    assert(patch_tail(entries.drop_last(), names_in(lines)) =~= Seq::<char>::empty());
    assert(patch_tail(entries, names_in(lines)) =~= seq!['\n'] + format_variable(v) + seq!['\n']);
    assert(patched_text(lines, entries) =~= join_lines(anew) + seq!['\n'] + format_variable(v)
        + seq!['\n']);
    if is_patch_entry(key, v) && v.var_type != CMakeVariableType::Internal {
        let old = load(data).variables;
        assert(is_patch(entries));
        lemma_load_patched(data, entries);
        lemma_read_lines_table(lines);
        assert(patched_table(old, table) =~= old.insert(key, v));
    }
}

/// A patch of one variable under a name that a text declares: each line that
/// declares the name gives way to the line of the variable, every other line
/// is written anew, and nothing is added. Where the variable can stand in a
/// patch, its type is not `Internal` and the table held a variable under the
/// name, the table that is read again holds the new variable in the place of
/// the old one and has as many entries as before.
pub proof fn lemma_patch_declared_name(data: Seq<u8>, key: Seq<char>, v: VariableView)
    requires
        is_text(data),
        names_in(text_lines(data)).contains(key),
    ensures
        patch_data(data, seq![(key, v)]) == Ok::<Seq<char>, ErrorView>(
            join_lines(
                text_lines(data).map_values(
                    |line: Seq<char>|
                        if declares(line, key) {
                            format_variable(v)
                        } else {
                            patch_line(line, Map::empty())
                        },
                ),
            ),
        ),
        is_patch_entry(key, v) && v.var_type != CMakeVariableType::Internal
            && load(data).variables.contains_key(key) ==> ({
            let text = patch_data(data, seq![(key, v)])->Ok_0;
            &&& load(encode_utf8(text)).variables == load(data).variables.insert(key, v)
            &&& load(encode_utf8(text)).variables.len() == load(data).variables.len()
        }),
{
    let entries = seq![(key, v)];
    let lines = text_lines(data);
    let table = map_of(entries);
    lemma_map_of(entries);
    assert(table.contains_key(entries[0].0));
    assert forall|k: Seq<char>| table.contains_key(k) implies k == key by {
        let i = position_of(entries, k);
    }
    let body = lines.map_values(|line: Seq<char>| patch_line(line, table));
    let replaced = lines.map_values(
        |line: Seq<char>|
            if declares(line, key) {
                format_variable(v)
            } else {
                patch_line(line, Map::empty())
            },
    );
    assert(body =~= replaced);
    assert(entries.drop_last() =~= Seq::<(Seq<char>, VariableView)>::empty());
    assert(entries.last() == (key, v));
    assert(patch_tail(entries.drop_last(), names_in(lines)) =~= Seq::<char>::empty());
    assert(patch_tail(entries, names_in(lines)) =~= Seq::<char>::empty());
    assert(patched_text(lines, entries) =~= join_lines(replaced));
    if is_patch_entry(key, v) && v.var_type != CMakeVariableType::Internal
        && load(data).variables.contains_key(key) {
        let old = load(data).variables;
        assert(is_patch(entries));
        lemma_load_patched(data, entries);
        lemma_read_lines_table(lines);
        assert(patched_table(old, table) =~= old.insert(key, v));
    }
}

} // verus!
