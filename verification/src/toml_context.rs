//! What a cursor in a `Cargo.toml` document is about to complete.
use crate::ascii;
use crate::ascii::{
    all_crate_chars, find_byte, is_crate_char, is_str_delim, CLOSE_BRACE, CLOSE_BRACKET, EQUALS,
    OPEN_BRACE, OPEN_BRACKET, SPACE,
};
use crate::position;
use crate::position::{
    count_lines, full_line_text, line_starts, line_text, offset_of, position_of, Range,
};
use crate::text;
use crate::toml_scan;
use crate::toml_scan::{find_matching, strip_comment};
use crate::toml_table;
use crate::toml_table::parse_inline_table;
use vstd::prelude::*;
use vstd::string::*;
use vstd::utf8::*;

verus! {

/// A crate name that is being typed.
pub struct CrateNameContext {
    /// The part of the name before the cursor.
    pub prefix: String,
    /// Where the name starts in its line.
    pub start_character: u32,
    /// Where the name ends in its line.
    pub end_character: u32,
}

/// A feature that is being typed in the inline table of a dependency.
pub struct FeatureCompletionContext {
    /// The crate that the dependency stands for.
    pub crate_name: String,
    /// The version that the dependency asks for.
    pub version_requirement: String,
    /// The part of the feature before the cursor.
    pub feature_prefix: String,
    /// Where the feature stands.
    pub range: Range,
    /// The features that the dependency already asks for.
    pub selected_features: Vec<String>,
}

/// A version that is being typed.
pub struct VersionContext {
    /// The crate that the dependency stands for.
    pub crate_name: String,
    /// The part of the version before the cursor.
    pub version_prefix: String,
    /// Where the version stands.
    pub range: Range,
}

/// The text that a [`CrateNameContext`] holds.
pub struct CrateNameModel {
    /// The part of the name before the cursor.
    pub prefix: Seq<char>,
    /// Where the name starts in its line.
    pub start_character: u32,
    /// Where the name ends in its line.
    pub end_character: u32,
}

/// The text that a [`FeatureCompletionContext`] holds.
pub struct FeatureModel {
    /// The crate that the dependency stands for.
    pub crate_name: Seq<char>,
    /// The version that the dependency asks for.
    pub version_requirement: Seq<char>,
    /// The part of the feature before the cursor.
    pub feature_prefix: Seq<char>,
    /// Where the feature stands.
    pub range: Range,
    /// The features that the dependency already asks for.
    pub selected_features: Seq<Seq<char>>,
}

/// The text that a [`VersionContext`] holds.
pub struct VersionModel {
    /// The crate that the dependency stands for.
    pub crate_name: Seq<char>,
    /// The part of the version before the cursor.
    pub version_prefix: Seq<char>,
    /// Where the version stands.
    pub range: Range,
}

impl View for CrateNameContext {
    type V = CrateNameModel;

    open spec fn view(&self) -> CrateNameModel {
        CrateNameModel {
            prefix: self.prefix@,
            start_character: self.start_character,
            end_character: self.end_character,
        }
    }
}

impl View for FeatureCompletionContext {
    type V = FeatureModel;

    open spec fn view(&self) -> FeatureModel {
        FeatureModel {
            crate_name: self.crate_name@,
            version_requirement: self.version_requirement@,
            feature_prefix: self.feature_prefix@,
            range: self.range,
            selected_features: text::texts(self.selected_features@),
        }
    }
}

impl View for VersionContext {
    type V = VersionModel;

    open spec fn view(&self) -> VersionModel {
        VersionModel {
            crate_name: self.crate_name@,
            version_prefix: self.version_prefix@,
            range: self.range,
        }
    }
}

/// The lower of two numbers.
pub open spec fn lower(a: int, b: int) -> int {
    if a <= b {
        a
    } else {
        b
    }
}

/// Line `line` without its comment and the white space around it.
pub open spec fn bare_line(line: Seq<u8>) -> Seq<u8> {
    text::trimmed_bytes(toml_scan::uncommented(line))
}

/// Whether the bare line `t` is the header of a table: `[name]`, but not `[[name]]`.
pub open spec fn is_header(t: Seq<u8>) -> bool {
    &&& t.len() >= 2
    &&& t[0] == OPEN_BRACKET
    &&& t[1] != OPEN_BRACKET
    &&& t.last() == CLOSE_BRACKET
}

/// The name of the table with header `t`, in lower case.
pub open spec fn header_name(t: Seq<u8>) -> Seq<char> {
    text::lowercase(text::trimmed(decode_utf8(t.subrange(1, t.len() - 1))))
}

/// The name of the last table whose header stands in line `i` of `b` or above.
pub open spec fn section_at(b: Seq<u8>, i: int) -> Option<Seq<char>>
    decreases i + 1,
{
    if i < 0 {
        None
    } else {
        let t = bare_line(position::line_bytes(b, i));
        if is_header(t) {
            Some(header_name(t))
        } else {
            section_at(b, i - 1)
        }
    }
}

/// Whether a table of that name lists dependencies.
pub open spec fn lists_dependencies(name: Seq<char>) -> bool {
    ||| name == "dependencies"@
    ||| name == "dev-dependencies"@
    ||| name == "build-dependencies"@
    ||| name == "workspace.dependencies"@
    ||| ".dependencies"@.is_suffix_of(name)
    ||| ".dev-dependencies"@.is_suffix_of(name)
    ||| ".build-dependencies"@.is_suffix_of(name)
}

/// Whether line `line` of `b` (its last line, where it has no such line) belongs to a table of
/// dependencies.
pub open spec fn in_dependencies(b: Seq<u8>, line: int) -> bool {
    match section_at(b, lower(line, position::line_count(b) - 1)) {
        Some(name) => lists_dependencies(name),
        None => false,
    }
}

/// Tells whether a table of that name lists dependencies.
fn is_dependencies_name(name: &str) -> (r: bool)
    ensures
        r == lists_dependencies(name@),
{
    text::str_equal(name, "dependencies") || text::str_equal(name, "dev-dependencies")
        || text::str_equal(name, "build-dependencies") || text::str_equal(
        name,
        "workspace.dependencies",
    ) || text::str_ends_with(name, ".dependencies") || text::str_ends_with(
        name,
        ".dev-dependencies",
    ) || text::str_ends_with(name, ".build-dependencies")
}

/// Tells whether the last `[section]` header in line `line` or above names a table of dependencies.
/// A line behind the last one counts as the last one. A document without any text has no header.
pub fn is_in_dependencies_section(text: &str, line: u32) -> (r: bool)
    ensures
        r == in_dependencies(text.spec_bytes(), line as int),
{
    let ghost b = text.spec_bytes();
    let ls = line_starts(text);
    let count: usize = count_lines(text, ls.as_slice());
    if count == 0 {
        assert(section_at(b, -1) is None);
        return false;
    }
    proof {
        position::lemma_starts(b, b.len() as int);
        text::lemma_str_bytes(text);
    }
    let mut i: usize = if (line as usize) < count {
        line as usize
    } else {
        count - 1
    };
    loop
        invariant
            b == text.spec_bytes(),
            position::ints(ls@) == position::starts_of(b),
            i < position::line_count(b) <= ls@.len(),
            section_at(b, i as int) == section_at(
                b,
                lower(line as int, position::line_count(b) - 1),
            ),
        decreases i,
    {
        let raw = line_text(text, ls.as_slice(), i);
        let code = strip_comment(raw);
        let trimmed = code.trim();
        let t = trimmed.as_bytes();
        proof {
            text::lemma_str_bytes(code);
            text::lemma_str_bytes(trimmed);
        }
        if t.len() >= 2 && t[0] == OPEN_BRACKET && t[1] != OPEN_BRACKET && t[t.len() - 1]
            == CLOSE_BRACKET {
            proof {
                text::lemma_ascii_boundary(t@, 0);
                text::lemma_ascii_boundary(t@, t@.len() - 1);
            }
            let inside = text::slice_str(trimmed, 1, t.len() - 1);
            proof {
                text::lemma_str_bytes(inside);
            }
            let name = inside.trim().to_lowercase();
            return is_dependencies_name(name.as_str());
        }
        if i == 0 {
            assert(section_at(b, -1) is None);
            return false;
        }
        i -= 1;
    }
}

/// Whether the cursor in line `b` is on the left of an assignment: no `=` stands before it.
pub open spec fn typing_crate_name(b: Seq<u8>, cursor_char: int) -> bool {
    forall|k: int| 0 <= k < lower(cursor_char, b.len() as int) ==> #[trigger] b[k] != EQUALS
}

/// Tells whether the cursor is on the left of an assignment, where crate names stand: no `=` stands
/// before it in its line.
pub fn is_typing_crate_name(line_text: &str, cursor_char: u32) -> (r: bool)
    ensures
        r == typing_crate_name(line_text.spec_bytes(), cursor_char as int),
{
    let bytes = line_text.as_bytes();
    proof {
        ascii::lemma_first_at(bytes@, EQUALS, 0);
    }
    match find_byte(bytes, EQUALS, 0) {
        Some(i) => {
            assert(bytes@[i as int] == EQUALS);
            i >= cursor_char as usize
        },
        None => true,
    }
}

/// Whether nothing stands before the cursor in line `b`, but for white space around it, that a crate
/// name cannot hold.
pub open spec fn name_before(b: Seq<u8>, cursor_char: int) -> bool {
    ascii::crate_bytes(text::trimmed_bytes(b.subrange(0, lower(cursor_char, b.len() as int))))
}

/// Tells whether nothing stands before the cursor, but for white space around it, that a crate name
/// cannot hold.
fn is_name_before(line_text: &str, cursor_char: u32) -> (r: bool)
    requires
        is_char_boundary(
            line_text.spec_bytes(),
            lower(cursor_char as int, line_text.spec_bytes().len() as int),
        ),
    ensures
        r == name_before(line_text.spec_bytes(), cursor_char as int),
{
    let bytes = line_text.as_bytes();
    let cursor: usize = if (cursor_char as usize) < bytes.len() {
        cursor_char as usize
    } else {
        bytes.len()
    };
    proof {
        text::lemma_str_bytes(line_text);
        is_char_boundary_start_end_of_seq(bytes@);
    }
    let before = text::slice_str(line_text, 0, cursor);
    let trimmed = before.trim();
    proof {
        text::lemma_str_bytes(before);
        text::lemma_str_bytes(trimmed);
    }
    all_crate_chars(trimmed.as_bytes())
}

/// Where the crate name that ends at `i` starts.
pub open spec fn name_start(b: Seq<u8>, i: int) -> int
    decreases i,
{
    if i > 0 && ascii::crate_byte(b[i - 1]) {
        name_start(b, i - 1)
    } else {
        i
    }
}

/// The crate name around the cursor in line `b`.
pub open spec fn crate_name_at(b: Seq<u8>, cursor_char: int) -> CrateNameModel {
    let cursor = lower(cursor_char, b.len() as int);
    CrateNameModel {
        prefix: decode_utf8(b.subrange(name_start(b, cursor), cursor)),
        start_character: name_start(b, cursor) as u32,
        end_character: toml_scan::key_end(b, cursor, b.len() as int) as u32,
    }
}

/// The crate name around the cursor.
pub fn get_crate_name_context(line_text: &str, cursor_char: u32) -> (r: CrateNameContext)
    requires
        is_char_boundary(
            line_text.spec_bytes(),
            lower(cursor_char as int, line_text.spec_bytes().len() as int),
        ),
    ensures
        r@ == crate_name_at(line_text.spec_bytes(), cursor_char as int),
{
    let bytes = line_text.as_bytes();
    let cursor: usize = if (cursor_char as usize) < bytes.len() {
        cursor_char as usize
    } else {
        bytes.len()
    };
    proof {
        text::lemma_str_bytes(line_text);
    }
    let mut start: usize = cursor;
    while start > 0 && is_crate_char(bytes[start - 1])
        invariant
            start <= cursor <= bytes@.len(),
            valid_utf8(bytes@),
            is_char_boundary(bytes@, start as int),
            name_start(bytes@, start as int) == name_start(bytes@, cursor as int),
        decreases start,
    {
        start -= 1;
        proof {
            text::lemma_ascii_boundary(bytes@, start as int);
        }
    }
    let mut end: usize = cursor;
    while end < bytes.len() && is_crate_char(bytes[end])
        invariant
            cursor <= end <= bytes@.len(),
            toml_scan::key_end(bytes@, end as int, bytes@.len() as int) == toml_scan::key_end(
                bytes@,
                cursor as int,
                bytes@.len() as int,
            ),
        decreases bytes@.len() - end,
    {
        end += 1;
    }
    let prefix = text::slice_str(line_text, start, cursor);
    proof {
        text::lemma_str_bytes(prefix);
    }
    CrateNameContext {
        prefix: prefix.to_owned(),
        start_character: start as u32,
        end_character: end as u32,
    }
}

/// The keys of a dependency's own table that are not crate names.
pub open spec fn meta_key(key: Seq<char>) -> bool {
    ||| key == "version"@
    ||| key == "path"@
    ||| key == "git"@
    ||| key == "branch"@
    ||| key == "tag"@
    ||| key == "rev"@
    ||| key == "edition"@
}

/// Tells whether `key` is one of a dependency's own table, and not a crate name.
fn is_meta_key(key: &str) -> (r: bool)
    ensures
        r == meta_key(key@),
{
    text::str_equal(key, "version") || text::str_equal(key, "path") || text::str_equal(key, "git")
        || text::str_equal(key, "branch") || text::str_equal(key, "tag") || text::str_equal(
        key,
        "rev",
    ) || text::str_equal(key, "edition")
}

/// The first byte at or after `i` that is no space.
pub open spec fn spaces_end(b: Seq<u8>, i: int) -> int
    decreases b.len() - i,
{
    if i < b.len() && b[i] == SPACE {
        spaces_end(b, i + 1)
    } else {
        i
    }
}

/// The key before the first `=` of `code`, without the white space around it.
pub open spec fn assigned_key(code: Seq<u8>) -> Seq<u8> {
    text::trimmed_bytes(code.subrange(0, ascii::first_at(code, EQUALS, 0)))
}

/// The bounds of the version in code of the form `name = "version"`, where the cursor is in it.
pub open spec fn version_bounds(code: Seq<u8>, cursor: int) -> Option<(int, int)> {
    let eq = ascii::first_at(code, EQUALS, 0);
    let key = assigned_key(code);
    let quote = spaces_end(code, eq + 1);
    let end = ascii::first_at(code, code[quote], quote + 1);
    if eq < code.len() && cursor > eq && key.len() > 0 && ascii::crate_bytes(key) && !meta_key(
        decode_utf8(key),
    ) && quote < code.len() && ascii::str_delim(code[quote]) && quote + 1 <= cursor <= end {
        Some((quote + 1, end))
    } else {
        None
    }
}

/// The code of line `line` of `b`.
pub open spec fn code_of_line(b: Seq<u8>, line: int) -> Seq<u8> {
    toml_scan::uncommented(position::line_bytes(b, line))
}

/// The bounds of the version in line `line` of `b`, where the cursor is in one.
pub open spec fn version_bounds_at(b: Seq<u8>, line: int, character: int) -> Option<(int, int)> {
    let code = code_of_line(b, line);
    if line < position::line_count(b) {
        version_bounds(code, lower(character, code.len() as int))
    } else {
        None
    }
}

/// The version that is typed in a line of the form `name = "version"`.
pub open spec fn version_at(b: Seq<u8>, line: int, character: int) -> Option<VersionModel> {
    match version_bounds_at(b, line, character) {
        Some((start, end)) => {
            let code = code_of_line(b, line);
            let ls = position::starts_of(b);
            Some(
                VersionModel {
                    crate_name: decode_utf8(assigned_key(code)),
                    version_prefix: decode_utf8(
                        code.subrange(start, lower(character, code.len() as int)),
                    ),
                    range: position::range_at(
                        ls,
                        ls[line] + (start as u32),
                        ls[line] + (end as u32),
                    ),
                },
            )
        },
        None => None,
    }
}

/// The bounds of a version lie within the line, and in order around the cursor.
pub proof fn lemma_version_bounds(code: Seq<u8>, cursor: int)
    requires
        valid_utf8(code),
    ensures
        version_bounds(code, cursor) matches Some((start, end)) ==> {
            &&& 0 < start <= cursor <= end <= code.len()
            &&& is_char_boundary(code, start)
            &&& is_char_boundary(code, end)
        },
{
    let eq = ascii::first_at(code, EQUALS, 0);
    ascii::lemma_first_at(code, EQUALS, 0);
    if eq < code.len() {
        lemma_spaces_end(code, eq + 1);
        let quote = spaces_end(code, eq + 1);
        if quote < code.len() && ascii::str_delim(code[quote]) {
            text::lemma_ascii_boundary(code, quote);
            ascii::lemma_first_at(code, code[quote], quote + 1);
            let end = ascii::first_at(code, code[quote], quote + 1);
            is_char_boundary_start_end_of_seq(code);
            if end < code.len() {
                text::lemma_ascii_boundary(code, end);
            }
        }
    }
}

/// `spaces_end` does not go back, and not beyond the end.
pub proof fn lemma_spaces_end(b: Seq<u8>, i: int)
    requires
        i <= b.len(),
    ensures
        i <= spaces_end(b, i) <= b.len(),
    decreases b.len() - i,
{
    if i < b.len() && b[i] == SPACE {
        lemma_spaces_end(b, i + 1);
    }
}

/// The version that is being typed in a line of the form `name = "version"`, where the cursor is
/// between the quotes.
pub fn get_version_context(text: &str, line: u32, character: u32) -> (r: Option<VersionContext>)
    requires
        version_bounds_at(text.spec_bytes(), line as int, character as int) is Some
            ==> is_char_boundary(
            code_of_line(text.spec_bytes(), line as int),
            lower(
                character as int,
                code_of_line(text.spec_bytes(), line as int).len() as int,
            ),
        ),
    ensures
        match r {
            Some(c) => version_at(text.spec_bytes(), line as int, character as int) == Some(c@),
            None => version_at(text.spec_bytes(), line as int, character as int) is None,
        },
{
    let ghost b = text.spec_bytes();
    let ls = line_starts(text);
    let count: usize = count_lines(text, ls.as_slice());
    if (line as usize) >= count {
        return None;
    }
    let stripped = strip_comment(line_text(text, ls.as_slice(), line as usize));
    let bytes = stripped.as_bytes();
    let cursor: usize = if (character as usize) < bytes.len() {
        character as usize
    } else {
        bytes.len()
    };
    proof {
        text::lemma_str_bytes(text);
        text::lemma_str_bytes(stripped);
        assert(bytes@ == code_of_line(b, line as int));
        ascii::lemma_first_at(bytes@, EQUALS, 0);
        is_char_boundary_start_end_of_seq(bytes@);
        lemma_version_bounds(bytes@, cursor as int);
    }
    let eq_pos: usize = match find_byte(bytes, EQUALS, 0) {
        Some(p) => p,
        None => {
            return None;
        },
    };
    if cursor <= eq_pos {
        return None;
    }
    proof {
        text::lemma_ascii_boundary(bytes@, eq_pos as int);
        lemma_spaces_end(bytes@, eq_pos + 1);
    }
    let left = text::slice_str(stripped, 0, eq_pos);
    let key = left.trim();
    proof {
        text::lemma_str_bytes(left);
        text::lemma_str_bytes(key);
        assert(key.spec_bytes() == assigned_key(bytes@));
    }
    if key.as_bytes().len() == 0 || !all_crate_chars(key.as_bytes()) {
        return None;
    }
    if is_meta_key(key) {
        return None;
    }
    let mut q: usize = eq_pos + 1;
    while q < bytes.len() && bytes[q] == SPACE
        invariant
            eq_pos < q <= bytes@.len(),
            spaces_end(bytes@, q as int) == spaces_end(bytes@, eq_pos + 1),
        decreases bytes@.len() - q,
    {
        q += 1;
    }
    if q >= bytes.len() || !is_str_delim(bytes[q]) {
        return None;
    }
    let content_start: usize = q + 1;
    let content_end: usize = match find_byte(bytes, bytes[q], content_start) {
        Some(e) => e,
        None => bytes.len(),
    };
    if cursor < content_start || cursor > content_end {
        return None;
    }
    assert(version_bounds(bytes@, cursor as int) == Some(
        (content_start as int, content_end as int),
    ));
    let abs_start: usize = offset_of(ls.as_slice(), line, content_start as u32);
    let abs_end: usize = offset_of(ls.as_slice(), line, content_end as u32);
    let prefix = text::slice_str(stripped, content_start, cursor);
    proof {
        text::lemma_str_bytes(prefix);
        position::lemma_starts(b, b.len() as int);
        position::lemma_line_bounds(b, line as int);
        toml_scan::lemma_uncommented(position::line_bytes(b, line as int));
        lemma_u32_cast(content_start);
        lemma_u32_cast(content_end);
    }
    let range = Range {
        start: position_of(ls.as_slice(), abs_start),
        end: position_of(ls.as_slice(), abs_end),
    };
    Some(
        VersionContext {
            crate_name: key.to_owned(),
            version_prefix: prefix.to_owned(),
            range,
        },
    )
}

/// Cutting a number down to 32 bits does not raise it.
proof fn lemma_u32_cast(n: usize)
    ensures
        n as u32 <= n,
{
    assert(n as u32 <= n) by (bit_vector);
}

/// The code of line `line` of `b`, with the line ending where no comment cuts it off.
pub open spec fn code_of_full_line(b: Seq<u8>, line: int) -> Seq<u8> {
    toml_scan::uncommented(position::full_line_bytes(b, line))
}

/// Whether the bare line `t` is a header, of a table or of an array of tables.
pub open spec fn any_header(t: Seq<u8>) -> bool {
    t.len() > 0 && t[0] == OPEN_BRACKET && t.last() == CLOSE_BRACKET
}

/// The dependency that line `line` of `b` opens with `name = {`: its name, its opening brace and its
/// closing brace.
pub open spec fn dependency_in_line(b: Seq<u8>, line: int) -> Option<(Seq<char>, int, int)> {
    let code = code_of_full_line(b, line);
    let eq = ascii::first_at(code, EQUALS, 0);
    let key = assigned_key(code);
    let column = ascii::first_at(code, OPEN_BRACE, eq + 1);
    let brace = position::starts_of(b)[line] + column;
    if eq < code.len() && key.len() > 0 && ascii::crate_bytes(key) && column < code.len() {
        match toml_scan::matching(b, brace, OPEN_BRACE, CLOSE_BRACE, b.len() as int) {
            Some(close) => Some((decode_utf8(key), brace, close)),
            None => None,
        }
    } else {
        None
    }
}

/// The inline table around the offset `at`, searched from line `l` of `b` upwards, where the cursor
/// is in line `line`: the name of its dependency, its opening brace and its closing brace. A header
/// above the cursor ends the search.
pub open spec fn dependency_from(b: Seq<u8>, line: int, l: int, at: int) -> Option<
    (Seq<char>, int, int),
>
    decreases l + 1,
{
    if l < 0 || (l < line && any_header(bare_line(position::full_line_bytes(b, l)))) {
        None
    } else {
        match dependency_in_line(b, l) {
            Some((name, open, close)) if open < at <= close => Some((name, open, close)),
            _ => dependency_from(b, line, l - 1, at),
        }
    }
}

/// The offset of the cursor in `b`.
pub open spec fn cursor_at(b: Seq<u8>, line: int, character: int) -> int {
    position::offset_at(position::starts_of(b), line, character)
}

/// The inline table around the cursor.
pub open spec fn dependency_at(b: Seq<u8>, line: int, character: int) -> Option<
    (Seq<char>, int, int),
> {
    dependency_from(b, line, line, cursor_at(b, line, character))
}

/// The braces of an inline table stand in order around the cursor, and the second closes the first.
pub proof fn lemma_dependency_from(b: Seq<u8>, line: int, l: int, at: int)
    ensures
        dependency_from(b, line, l, at) matches Some((name, open, close)) ==> {
            &&& open < at <= close < b.len()
            &&& toml_scan::matching(b, open, OPEN_BRACE, CLOSE_BRACE, b.len() as int) == Some(close)
        },
    decreases l + 1,
{
    if l >= 0 && !(l < line && any_header(bare_line(position::full_line_bytes(b, l)))) {
        match dependency_in_line(b, l) {
            Some((name, open, close)) if open < at <= close => {
                toml_scan::lemma_matching_from(
                    b,
                    open,
                    b.len() as int,
                    OPEN_BRACE,
                    CLOSE_BRACE,
                    0,
                    toml_scan::Lex::Code,
                );
            },
            _ => {
                lemma_dependency_from(b, line, l - 1, at);
            },
        }
    }
}

/// The inline table of a dependency opens within the document.
pub proof fn lemma_dependency_open(b: Seq<u8>, line: int, l: int, at: int)
    requires
        l < position::starts_of(b).len(),
    ensures
        dependency_from(b, line, l, at) matches Some((name, open, close)) ==> 0 <= open,
    decreases l + 1,
{
    if l >= 0 && !(l < line && any_header(bare_line(position::full_line_bytes(b, l)))) {
        let code = code_of_full_line(b, l);
        position::lemma_starts(b, b.len() as int);
        ascii::lemma_first_at(code, EQUALS, 0);
        if ascii::first_at(code, EQUALS, 0) < code.len() {
            ascii::lemma_first_at(code, OPEN_BRACE, ascii::first_at(code, EQUALS, 0) + 1);
        }
        lemma_dependency_open(b, line, l - 1, at);
    }
}

/// Where the inline table of a dependency starts.
pub struct InlineDepStart {
    /// The name on the left of the table.
    pub dep_key: String,
    /// The brace that opens the table.
    pub open_brace: usize,
}

/// Finds the inline table around the cursor.
pub fn find_inline_dep_start(text: &str, line: u32, character: u32) -> (r: Option<InlineDepStart>)
    requires
        line < position::starts_of(text.spec_bytes()).len(),
    ensures
        match (r, dependency_at(text.spec_bytes(), line as int, character as int)) {
            (Some(d), Some((name, open, close))) => d.dep_key@ == name && d.open_brace == open,
            (None, None) => true,
            _ => false,
        },
{
    let bytes = text.as_bytes();
    let ghost b = text.spec_bytes();
    let ls = line_starts(text);
    let cursor_offset: usize = offset_of(ls.as_slice(), line, character);
    let ghost at = cursor_at(b, line as int, character as int);
    proof {
        text::lemma_str_bytes(text);
        position::lemma_starts(b, b.len() as int);
    }
    let mut l: usize = line as usize;
    loop
        invariant
            bytes@ == b,
            b == text.spec_bytes(),
            valid_utf8(b),
            b.len() <= usize::MAX,
            position::ints(ls@) == position::starts_of(b),
            l <= line < ls@.len(),
            cursor_offset == if at <= usize::MAX {
                at
            } else {
                usize::MAX as int
            },
            at >= 0,
            dependency_from(b, line as int, l as int, at) == dependency_at(
                b,
                line as int,
                character as int,
            ),
        decreases l,
    {
        let raw = full_line_text(text, ls.as_slice(), l);
        let stripped = strip_comment(raw);
        let trimmed = stripped.trim();
        let t = trimmed.as_bytes();
        let code = stripped.as_bytes();
        proof {
            text::lemma_str_bytes(stripped);
            text::lemma_str_bytes(trimmed);
            position::lemma_line_bounds(b, l as int);
            toml_scan::lemma_uncommented(position::full_line_bytes(b, l as int));
            assert(code@ == code_of_full_line(b, l as int));
            assert(t@ == bare_line(position::full_line_bytes(b, l as int)));
            ascii::lemma_first_at(code@, EQUALS, 0);
            is_char_boundary_start_end_of_seq(code@);
            position::lemma_starts(b, b.len() as int);
            assert(position::ints(ls@)[l as int] == ls@[l as int]);
        }
        if l < line as usize && t.len() > 0 && t[0] == OPEN_BRACKET && t[t.len() - 1]
            == CLOSE_BRACKET {
            return None;
        }
        match find_byte(code, EQUALS, 0) {
            Some(eq_pos) => {
                proof {
                    text::lemma_ascii_boundary(code@, eq_pos as int);
                    ascii::lemma_first_at(code@, OPEN_BRACE, eq_pos + 1);
                }
                let left = text::slice_str(stripped, 0, eq_pos);
                let key = left.trim();
                proof {
                    text::lemma_str_bytes(left);
                    text::lemma_str_bytes(key);
                    assert(key.spec_bytes() == assigned_key(code@));
                }
                if key.as_bytes().len() > 0 && all_crate_chars(key.as_bytes()) {
                    match find_byte(code, OPEN_BRACE, eq_pos + 1) {
                        Some(column) => {
                            let brace: usize = ls[l] + column;
                            match find_matching(
                                bytes,
                                brace,
                                OPEN_BRACE,
                                CLOSE_BRACE,
                                bytes.len(),
                            ) {
                                Some(close) => {
                                    proof {
                                        toml_scan::lemma_matching_from(
                                            b,
                                            brace as int,
                                            b.len() as int,
                                            OPEN_BRACE,
                                            CLOSE_BRACE,
                                            0,
                                            toml_scan::Lex::Code,
                                        );
                                    }
                                    if cursor_offset > brace && cursor_offset <= close {
                                        return Some(
                                            InlineDepStart {
                                                dep_key: key.to_owned(),
                                                open_brace: brace,
                                            },
                                        );
                                    }
                                },
                                None => {},
                            }
                        },
                        None => {},
                    }
                }
            },
            None => {},
        }
        if l == 0 {
            assert(dependency_from(b, line as int, -1, at) is None);
            return None;
        }
        l -= 1;
    }
}

/// The inline table around the cursor, in a table of dependencies: the name on its left, and what it
/// says. In a line that the document does not have, there is none.
pub open spec fn inline_dependency(b: Seq<u8>, line: int, character: int) -> Option<
    (Seq<char>, toml_table::TableModel),
> {
    if line < position::starts_of(b).len() && in_dependencies(b, line) {
        match dependency_at(b, line, character) {
            Some((name, open, close)) => Some(
                (name, toml_table::inline_table(b, open, close, cursor_at(b, line, character))),
            ),
            None => None,
        }
    } else {
        None
    }
}

/// The name of the crate behind a dependency: its `package`, or else the name on its left.
pub open spec fn package_or(package: Option<Seq<char>>, name: Seq<char>) -> Seq<char> {
    match package {
        Some(p) => p,
        None => name,
    }
}

/// The version that is typed in an inline table.
pub open spec fn inline_version_at(b: Seq<u8>, line: int, character: int) -> Option<VersionModel> {
    match inline_dependency(b, line, character) {
        Some((name, table)) => match table.version_cursor {
            Some((prefix, start, end)) => Some(
                VersionModel {
                    crate_name: package_or(table.package, name),
                    version_prefix: prefix,
                    range: position::range_at(position::starts_of(b), start, end),
                },
            ),
            None => None,
        },
        None => None,
    }
}

/// The feature that is typed in an inline table with a version.
pub open spec fn feature_at(b: Seq<u8>, line: int, character: int) -> Option<FeatureModel> {
    match inline_dependency(b, line, character) {
        Some((name, table)) => match (table.features, table.version) {
            (Some(slot), Some(version)) if text::trimmed(version).len() > 0 => Some(
                FeatureModel {
                    crate_name: package_or(table.package, name),
                    version_requirement: version,
                    feature_prefix: slot.prefix,
                    range: position::range_at(position::starts_of(b), slot.start, slot.end),
                    selected_features: slot.selected,
                },
            ),
            _ => None,
        },
        None => None,
    }
}

/// Reads the inline table around the cursor, in a table of dependencies.
fn read_inline_dependency(text: &str, line: u32, character: u32) -> (r: Option<
    (String, toml_table::InlineTable),
>)
    ensures
        match (r, inline_dependency(text.spec_bytes(), line as int, character as int)) {
            (Some((key, table)), Some((name, model))) => key@ == name && table@ == model,
            (None, None) => true,
            _ => false,
        },
{
    let bytes = text.as_bytes();
    let ls = line_starts(text);
    if (line as usize) >= ls.len() || !is_in_dependencies_section(text, line) {
        return None;
    }
    let dep_start = match find_inline_dep_start(text, line, character) {
        Some(d) => d,
        None => {
            return None;
        },
    };
    let cursor_offset: usize = offset_of(ls.as_slice(), line, character);
    proof {
        lemma_dependency_from(
            bytes@,
            line as int,
            line as int,
            cursor_at(bytes@, line as int, character as int),
        );
    }
    match find_matching(bytes, dep_start.open_brace, OPEN_BRACE, CLOSE_BRACE, bytes.len()) {
        Some(close) => {
            let table = parse_inline_table(bytes, dep_start.open_brace, close, cursor_offset);
            Some((dep_start.dep_key, table))
        },
        None => None,
    }
}

/// The version that is being typed in an inline table such as `serde = { version = "1" }`, where the
/// cursor is between its quotes.
pub fn get_inline_version_context(text: &str, line: u32, character: u32) -> (r: Option<
    VersionContext,
>)
    ensures
        match r {
            Some(c) => inline_version_at(text.spec_bytes(), line as int, character as int) == Some(
                c@,
            ),
            None => inline_version_at(text.spec_bytes(), line as int, character as int) is None,
        },
{
    let (key, table) = match read_inline_dependency(text, line, character) {
        Some(d) => d,
        None => {
            return None;
        },
    };
    let (version_prefix, start, end) = match table.version_cursor {
        Some(c) => c,
        None => {
            return None;
        },
    };
    let ls = line_starts(text);
    proof {
        position::lemma_starts(text.spec_bytes(), text.spec_bytes().len() as int);
    }
    let range = Range {
        start: position_of(ls.as_slice(), start),
        end: position_of(ls.as_slice(), end),
    };
    let crate_name = match table.package_name {
        Some(p) => p,
        None => key,
    };
    Some(VersionContext { crate_name, version_prefix, range })
}

/// The feature that is being typed in an inline table such as
/// `serde = { version = "1", features = ["derive"] }`, where the cursor is between the quotes of
/// one of its features.
pub fn get_feature_completion_context(text: &str, line: u32, character: u32) -> (r: Option<
    FeatureCompletionContext,
>)
    ensures
        match r {
            Some(c) => feature_at(text.spec_bytes(), line as int, character as int) == Some(c@),
            None => feature_at(text.spec_bytes(), line as int, character as int) is None,
        },
{
    let (key, table) = match read_inline_dependency(text, line, character) {
        Some(d) => d,
        None => {
            return None;
        },
    };
    let slot = match table.feature_array {
        Some(f) => f,
        None => {
            return None;
        },
    };
    let version_requirement = match table.version {
        Some(v) => v,
        None => {
            return None;
        },
    };
    if version_requirement.as_str().trim().is_empty() {
        return None;
    }
    let ls = line_starts(text);
    proof {
        position::lemma_starts(text.spec_bytes(), text.spec_bytes().len() as int);
    }
    let range = Range {
        start: position_of(ls.as_slice(), slot.content_start),
        end: position_of(ls.as_slice(), slot.content_end),
    };
    let crate_name = match table.package_name {
        Some(p) => p,
        None => key,
    };
    Some(
        FeatureCompletionContext {
            crate_name,
            version_requirement,
            feature_prefix: slot.feature_prefix,
            range,
            selected_features: slot.selected_features,
        },
    )
}

/// What is being typed at a cursor.
pub enum CompletionContext {
    /// A feature of a dependency.
    Feature(FeatureCompletionContext),
    /// The name of a crate.
    CrateName(CrateNameContext),
    /// The version of a dependency.
    Version(VersionContext),
}

/// The text that a [`CompletionContext`] holds.
pub enum CompletionModel {
    /// A feature of a dependency.
    Feature(FeatureModel),
    /// The name of a crate.
    CrateName(CrateNameModel),
    /// The version of a dependency.
    Version(VersionModel),
}

impl View for CompletionContext {
    type V = CompletionModel;

    open spec fn view(&self) -> CompletionModel {
        match self {
            CompletionContext::Feature(c) => CompletionModel::Feature(c@),
            CompletionContext::CrateName(c) => CompletionModel::CrateName(c@),
            CompletionContext::Version(c) => CompletionModel::Version(c@),
        }
    }
}

/// Line `line` of `b`; an empty line where `b` ends with a line ending and the line is the one
/// behind it.
pub open spec fn line_or_empty(b: Seq<u8>, line: int) -> Seq<u8> {
    if line < position::line_count(b) {
        position::line_bytes(b, line)
    } else {
        Seq::empty()
    }
}

/// Whether the position is one of document `b`: its line exists, and its byte is not in the middle of
/// a character. A byte behind the end of the line counts as the end of the line.
pub open spec fn position_exists(b: Seq<u8>, line: int, character: int) -> bool {
    &&& line < position::starts_of(b).len()
    &&& is_char_boundary(
        line_or_empty(b, line),
        lower(character, line_or_empty(b, line).len() as int),
    )
}

/// What is typed at a cursor: a feature, or else the name of a crate, or else a version. All of
/// them belong to tables of dependencies. The name of a crate is typed on the left of an assignment,
/// with nothing before the cursor that such a name cannot hold.
pub open spec fn completion_at(b: Seq<u8>, line: int, character: int) -> Option<CompletionModel> {
    if !position_exists(b, line, character) || !in_dependencies(b, line) {
        None
    } else {
        match (
            feature_at(b, line, character),
            inline_version_at(b, line, character),
            version_at(b, line, character),
        ) {
            (Some(f), _, _) => Some(CompletionModel::Feature(f)),
            (None, inline, plain) => if typing_crate_name(line_or_empty(b, line), character)
                && name_before(line_or_empty(b, line), character) {
                Some(CompletionModel::CrateName(crate_name_at(line_or_empty(b, line), character)))
            } else {
                match (inline, plain) {
                    (Some(v), _) => Some(CompletionModel::Version(v)),
                    (None, Some(v)) => Some(CompletionModel::Version(v)),
                    (None, None) => None,
                }
            },
        }
    }
}

/// What is being typed at the cursor. Where the document has no such position, nothing is.
pub fn get_completion_context(text: &str, line: u32, character: u32) -> (r: Option<
    CompletionContext,
>)
    ensures
        match r {
            Some(c) => completion_at(text.spec_bytes(), line as int, character as int) == Some(c@),
            None => completion_at(text.spec_bytes(), line as int, character as int) is None,
        },
{
    let ghost b = text.spec_bytes();
    let ls = line_starts(text);
    let at: usize = line as usize;
    if at >= ls.len() {
        return None;
    }
    let count: usize = count_lines(text, ls.as_slice());
    let current: &str = if at < count {
        line_text(text, ls.as_slice(), at)
    } else {
        ""
    };
    proof {
        text::lemma_str_bytes(text);
        text::lemma_str_bytes(current);
        reveal_strlit("");
        assert(at >= count ==> current@ =~= Seq::<char>::empty());
        assert(current.spec_bytes() =~= line_or_empty(b, line as int));
    }
    let column: usize = if (character as usize) < current.as_bytes().len() {
        character as usize
    } else {
        current.as_bytes().len()
    };
    if !current.is_char_boundary(column) {
        return None;
    }
    if !is_in_dependencies_section(text, line) {
        return None;
    }
    match get_feature_completion_context(text, line, character) {
        Some(c) => {
            return Some(CompletionContext::Feature(c));
        },
        None => {},
    }
    if is_typing_crate_name(current, character) && is_name_before(current, character) {
        return Some(CompletionContext::CrateName(get_crate_name_context(current, character)));
    }
    match get_inline_version_context(text, line, character) {
        Some(c) => {
            return Some(CompletionContext::Version(c));
        },
        None => {},
    }
    proof {
        if at < count {
            lemma_boundary_in_code(current.spec_bytes(), character as int);
        }
    }
    match get_version_context(text, line, character) {
        Some(c) => Some(CompletionContext::Version(c)),
        None => None,
    }
}

/// A cursor between the characters of a line is between the characters of its code, or behind them.
proof fn lemma_boundary_in_code(line: Seq<u8>, character: int)
    requires
        valid_utf8(line),
        0 <= character,
        is_char_boundary(line, lower(character, line.len() as int)),
    ensures
        ({
            let code = toml_scan::uncommented(line);
            is_char_boundary(code, lower(character, code.len() as int))
        }),
{
    let code = toml_scan::uncommented(line);
    toml_scan::lemma_uncommented(line);
    is_char_boundary_start_end_of_seq(code);
    if character < code.len() {
        text::lemma_boundary_of_prefix(line, character, code.len() as int);
    }
}

/// A completion is offered in tables of dependencies only.
pub proof fn law_only_in_dependencies(b: Seq<u8>, line: int, character: int)
    ensures
        completion_at(b, line, character) is Some ==> in_dependencies(b, line),
        feature_at(b, line, character) is Some ==> in_dependencies(b, line),
        inline_version_at(b, line, character) is Some ==> in_dependencies(b, line),
{
}

/// A document without any text has no tables of dependencies, and so nothing is offered in it.
pub proof fn law_empty_document(line: int, character: int)
    ensures
        !in_dependencies(Seq::empty(), line),
        completion_at(Seq::empty(), line, character) is None,
{
    assert(position::line_count(Seq::empty()) == 0);
}

/// In a line that the document does not have, nothing is typed.
pub proof fn law_nothing_behind_the_last_line(b: Seq<u8>, line: int, character: int)
    requires
        line >= position::starts_of(b).len(),
    ensures
        version_at(b, line, character) is None,
        inline_version_at(b, line, character) is None,
        feature_at(b, line, character) is None,
        completion_at(b, line, character) is None,
{
}

/// A line that is no header belongs to the same table as the line above it.
pub proof fn law_section_reaches_down(b: Seq<u8>, line: int)
    requires
        0 <= line < position::line_count(b) - 1,
        !is_header(bare_line(position::line_bytes(b, line + 1))),
    ensures
        in_dependencies(b, line + 1) == in_dependencies(b, line),
{
}

/// The crate name around a cursor holds nothing but the bytes of crate names, reaches from its start
/// to its end around the cursor, and cannot be made longer on either side.
pub proof fn law_crate_name_extent(b: Seq<u8>, cursor_char: int)
    requires
        0 <= cursor_char,
    ensures
        ({
            let cursor = lower(cursor_char, b.len() as int);
            let start = name_start(b, cursor);
            let end = toml_scan::key_end(b, cursor, b.len() as int);
            &&& 0 <= start <= cursor <= end <= b.len()
            &&& ascii::crate_bytes(b.subrange(start, end))
            &&& start > 0 ==> !ascii::crate_byte(b[start - 1])
            &&& end < b.len() ==> !ascii::crate_byte(b[end])
        }),
{
    let cursor = lower(cursor_char, b.len() as int);
    lemma_name_start(b, cursor);
    toml_scan::lemma_key_end(b, cursor, b.len() as int);
    toml_scan::lemma_key_end_stops(b, cursor, b.len() as int);
    let start = name_start(b, cursor);
    let end = toml_scan::key_end(b, cursor, b.len() as int);
    assert forall|i: int| 0 <= i < end - start implies ascii::crate_byte(
        #[trigger] b.subrange(start, end)[i],
    ) by {
        assert(ascii::crate_byte(b[start + i]));
    }
}

/// A crate name starts within bounds, behind a byte that no crate name holds.
pub proof fn lemma_name_start(b: Seq<u8>, i: int)
    requires
        0 <= i <= b.len(),
    ensures
        0 <= name_start(b, i) <= i,
        forall|k: int| name_start(b, i) <= k < i ==> ascii::crate_byte(#[trigger] b[k]),
        name_start(b, i) > 0 ==> !ascii::crate_byte(b[name_start(b, i) - 1]),
    decreases i,
{
    if i > 0 && ascii::crate_byte(b[i - 1]) {
        lemma_name_start(b, i - 1);
    }
}

/// The range of a version in a line of the form `name = "version"` lies in that line, around the
/// cursor, and the prefix is the text of the line from the start of the range up to the cursor. (The
/// numbers of a position have 32 bits, which the line and its length must fit.)
pub proof fn law_version_range(b: Seq<u8>, line: u32, character: u32)
    requires
        valid_utf8(b),
        version_at(b, line as int, character as int) is Some,
        code_of_line(b, line as int).len() <= u32::MAX,
    ensures
        ({
            let v = version_at(b, line as int, character as int)->0;
            let code = code_of_line(b, line as int);
            let cursor = lower(character as int, code.len() as int);
            &&& v.range.start.line == line
            &&& v.range.end.line == line
            &&& v.range.start.character <= cursor <= v.range.end.character <= code.len()
            &&& v.version_prefix == decode_utf8(
                code.subrange(v.range.start.character as int, cursor),
            )
        }),
{
    let ls = position::starts_of(b);
    let code = code_of_line(b, line as int);
    let cursor = lower(character as int, code.len() as int);
    position::lemma_starts(b, b.len() as int);
    position::lemma_line_bounds(b, line as int);
    toml_scan::lemma_uncommented(position::line_bytes(b, line as int));
    lemma_version_bounds(code, cursor);
    let (start, end) = version_bounds(code, cursor)->0;
    position::law_position_of_offset(b, line, start as u32);
    position::law_position_of_offset(b, line, end as u32);
}

/// The range of a version or a feature in an inline table goes around the cursor: found again as
/// offsets, its start is not behind the cursor, and its end not before it. (The numbers of a
/// position have 32 bits, which the offsets in the document must fit.)
pub proof fn law_inline_range_holds_cursor(b: Seq<u8>, line: int, character: int)
    requires
        b.len() <= u32::MAX,
        0 <= line < position::starts_of(b).len(),
    ensures
        ({
            let ls = position::starts_of(b);
            let at = cursor_at(b, line, character);
            &&& inline_version_at(b, line, character) matches Some(v) ==> {
                &&& position::offset_at(
                    ls,
                    v.range.start.line as int,
                    v.range.start.character as int,
                ) <= at
                &&& at <= position::offset_at(
                    ls,
                    v.range.end.line as int,
                    v.range.end.character as int,
                )
            }
            &&& feature_at(b, line, character) matches Some(f) ==> {
                &&& position::offset_at(
                    ls,
                    f.range.start.line as int,
                    f.range.start.character as int,
                ) <= at
                &&& at <= position::offset_at(
                    ls,
                    f.range.end.line as int,
                    f.range.end.character as int,
                )
            }
        }),
{
    let at = cursor_at(b, line, character);
    lemma_dependency_from(b, line, line, at);
    match dependency_at(b, line, character) {
        Some((name, open, close)) => {
            lemma_dependency_open(b, line, line, at);
            let table = toml_table::inline_table(b, open, close, at);
            toml_table::lemma_table_bounds(b, open, close, at);
            match table.version_cursor {
                Some((prefix, start, end)) => {
                    lemma_small_offset(b, start);
                    lemma_small_offset(b, end);
                },
                None => {},
            }
            match table.features {
                Some(slot) => {
                    lemma_small_offset(b, slot.start);
                    lemma_small_offset(b, slot.end);
                },
                None => {},
            }
        },
        None => {},
    }
}

/// An offset in a document that 32 bits can count is found again from its position.
proof fn lemma_small_offset(b: Seq<u8>, offset: int)
    requires
        b.len() <= u32::MAX,
        0 <= offset <= b.len(),
    ensures
        ({
            let p = position::position_at(position::starts_of(b), offset);
            position::offset_at(position::starts_of(b), p.line as int, p.character as int) == offset
        }),
{
    let ls = position::starts_of(b);
    position::lemma_starts(b, b.len() as int);
    position::lemma_line_of_bounds(ls, offset);
    position::law_offset_of_position(b, offset);
}

} // verus!
