//! The output encodings: their names, and how records and hits are rendered.

use vstd::prelude::*;
use vstd::string::StringExecFns;
use crate::text::{chars_of, decimal, digit, push_decimal, slice_of, text_of};
use crate::types::{hits, records, FileInfo, FileRecord, SearchHit, SearchResult};

verus! {

/// The encoding in which results are written.
#[derive(Debug, Clone, Copy, PartialEq, Eq, Structural)]
pub enum OutputFormat {
    /// The compact format: a header that names the fields, then one
    /// tab-indented, comma-separated line per result.
    Toon,
    /// The structured format: one self-describing JSON record per line.
    Json,
    /// Plain text: one line per result.
    Plain,
}

/// The text in lower case, as Unicode defines it.
pub uninterp spec fn lowercase(s: Seq<char>) -> Seq<char>;

/// `str::to_lowercase` gives the text in lower case; what it gives depends on
/// the text alone and is named [`lowercase`].
pub assume_specification[ str::to_lowercase ](s: &str) -> (r: String)
    ensures
        r@ == lowercase(s@),
;

/// The format that a name written in lower case stands for. The compact
/// format answers to `toon` and `compact`, the structured one to `json` and
/// `structured`, plain text to `plain`.
pub open spec fn format_named(name: Seq<char>) -> Option<OutputFormat> {
    if name == seq!['t', 'o', 'o', 'n'] || name == seq!['c', 'o', 'm', 'p', 'a', 'c', 't'] {
        Some(OutputFormat::Toon)
    } else if name == seq!['j', 's', 'o', 'n'] || name == seq![
        's',
        't',
        'r',
        'u',
        'c',
        't',
        'u',
        'r',
        'e',
        'd',
    ] {
        Some(OutputFormat::Json)
    } else if name == seq!['p', 'l', 'a', 'i', 'n'] {
        Some(OutputFormat::Plain)
    } else {
        None
    }
}

/// Whether the text is exactly the given word.
fn is_word(v: &Vec<char>, word: &str) -> (r: bool)
    ensures
        r == (v@ == word@),
{
    let w = chars_of(word);
    crate::matcher::same_text(v, &w)
}

impl OutputFormat {
    /// The format that a name written in lower case stands for, or `None`
    /// where it stands for none.
    pub fn from_lowercase(name: &str) -> (r: Option<OutputFormat>)
        ensures
            r == format_named(name@),
    {
        let v = chars_of(name);
        proof {
            reveal_strlit("toon");
            reveal_strlit("compact");
            reveal_strlit("json");
            reveal_strlit("structured");
            reveal_strlit("plain");
            assert("toon"@ =~= seq!['t', 'o', 'o', 'n']);
            assert("compact"@ =~= seq!['c', 'o', 'm', 'p', 'a', 'c', 't']);
            assert("json"@ =~= seq!['j', 's', 'o', 'n']);
            assert("structured"@ =~= seq!['s', 't', 'r', 'u', 'c', 't', 'u', 'r', 'e', 'd']);
            assert("plain"@ =~= seq!['p', 'l', 'a', 'i', 'n']);
        }
        if is_word(&v, "toon") || is_word(&v, "compact") {
            Some(OutputFormat::Toon)
        } else if is_word(&v, "json") || is_word(&v, "structured") {
            Some(OutputFormat::Json)
        } else if is_word(&v, "plain") {
            Some(OutputFormat::Plain)
        } else {
            None
        }
    }

    /// The format that a name stands for, whatever the case of its letters,
    /// or `None` where the name is unknown.
    pub fn from_str(s: &str) -> (r: Option<OutputFormat>)
        ensures
            r == format_named(lowercase(s@)),
    {
        let lower = s.to_lowercase();
        OutputFormat::from_lowercase(lower.as_str())
    }
}

/// The character separates fields of the compact format, or ends its header.
pub open spec fn is_separator(c: char) -> bool {
    c == ',' || c == ':'
}

/// The field holds a comma or a colon, and so is written in double quotes.
pub open spec fn needs_quotes(s: Seq<char>) -> bool {
    exists|i: int| 0 <= i < s.len() && is_separator(#[trigger] s[i])
}

/// A field as the compact format writes it: in double quotes where it holds
/// a comma or a colon, else as it is. A double quote inside the field is
/// written as it is.
pub open spec fn quoted(s: Seq<char>) -> Seq<char> {
    if needs_quotes(s) {
        seq!['"'] + s + seq!['"']
    } else {
        s
    }
}

/// The text begins and ends with a double quote.
pub open spec fn in_quotes(t: Seq<char>) -> bool {
    t.len() >= 2 && t.first() == '"' && t.last() == '"'
}

/// The field that a written field stands for: what is between the double
/// quotes where it begins and ends with one, else the text as it is.
pub open spec fn unquoted(t: Seq<char>) -> Seq<char> {
    if in_quotes(t) {
        t.subrange(1, t.len() - 1)
    } else {
        t
    }
}

/// Writing a field and reading it back gives the field, unless the field
/// holds neither comma nor colon and itself begins and ends with a double
/// quote: such a field is written as it is and read back without them.
pub proof fn lemma_quote_round_trip(s: Seq<char>)
    requires
        needs_quotes(s) || !in_quotes(s),
    ensures
        unquoted(quoted(s)) == s,
{
    if needs_quotes(s) {
        let q = quoted(s);
        assert(q.first() == '"');
        assert(q.last() == '"');
        assert(q.subrange(1, q.len() - 1) =~= s);
    }
}

/// Whether the field holds a comma or a colon.
pub fn has_separator(v: &[char]) -> (r: bool)
    ensures
        r == needs_quotes(v@),
{
    let mut i: usize = 0;
    while i < v.len()
        invariant
            i <= v.len(),
            forall|j: int| 0 <= j < i ==> !is_separator(#[trigger] v@[j]),
        decreases v.len() - i,
    {
        if v[i] == ',' || v[i] == ':' {
            proof {
                assert(is_separator(v@[i as int]));
            }
            return true;
        }
        i += 1;
    }
    false
}

/// Appends a field to `out` as the compact format writes it.
pub fn push_quoted(out: &mut String, field: &str)
    ensures
        final(out)@ == old(out)@ + quoted(field@),
{
    let v = chars_of(field);
    if has_separator(&v) {
        out.push('"');
        out.append(field);
        out.push('"');
        proof {
            assert(final(out)@ =~= old(out)@ + quoted(field@));
        }
    } else {
        out.append(field);
    }
}

/// A field as the compact format writes it.
pub fn quote_field(field: &str) -> (r: String)
    ensures
        r@ == quoted(field@),
{
    let mut out = String::new();
    push_quoted(&mut out, field);
    proof {
        assert(out@ =~= quoted(field@));
    }
    out
}

/// The field that a written field of the compact format stands for.
pub fn unquote_field(written: &str) -> (r: String)
    ensures
        r@ == unquoted(written@),
{
    let v = chars_of(written);
    let n: usize = v.len();
    if n >= 2 && v[0] == '"' && v[n - 1] == '"' {
        let inner = slice_of(&v, 1, n - 1);
        text_of(&inner)
    } else {
        text_of(&v)
    }
}

/// The line of a file in the compact format, without its line feed.
pub open spec fn compact_file_line(file: FileRecord) -> Seq<char> {
    seq!['\t'] + quoted(file.path) + seq![','] + decimal(file.size as nat)
}

/// The line of a file in plain text, without its line feed.
pub open spec fn plain_file_line(file: FileRecord) -> Seq<char> {
    file.path + seq![' '] + decimal(file.size as nat)
}

/// The line of a hit in the compact format, without its line feed.
pub open spec fn compact_hit_line(hit: SearchHit) -> Seq<char> {
    seq!['\t'] + quoted(hit.path) + seq![','] + decimal(hit.line) + seq![','] + quoted(
        hit.content,
    )
}

/// The line of a hit in plain text, without its line feed.
pub open spec fn plain_hit_line(hit: SearchHit) -> Seq<char> {
    hit.path + seq![':'] + decimal(hit.line) + seq![':', ' '] + hit.content
}

/// Appends the compact line of a file to `out`.
pub fn push_compact_file(out: &mut String, file: &FileInfo)
    ensures
        final(out)@ == old(out)@ + compact_file_line(file@),
{
    out.push('\t');
    push_quoted(out, file.path.as_str());
    out.push(',');
    push_decimal(out, file.size);
    proof {
        assert(final(out)@ =~= old(out)@ + compact_file_line(file@));
    }
}

/// Appends the plain line of a file to `out`.
pub fn push_plain_file(out: &mut String, file: &FileInfo)
    ensures
        final(out)@ == old(out)@ + plain_file_line(file@),
{
    out.append(file.path.as_str());
    out.push(' ');
    push_decimal(out, file.size);
    proof {
        assert(final(out)@ =~= old(out)@ + plain_file_line(file@));
    }
}

/// Appends the compact line of a hit to `out`.
pub fn push_compact_hit(out: &mut String, hit: &SearchResult)
    ensures
        final(out)@ == old(out)@ + compact_hit_line(hit@),
{
    out.push('\t');
    push_quoted(out, hit.path.as_str());
    out.push(',');
    push_decimal(out, hit.line as u64);
    out.push(',');
    push_quoted(out, hit.content.as_str());
    proof {
        assert(final(out)@ =~= old(out)@ + compact_hit_line(hit@));
    }
}

/// Appends the plain line of a hit to `out`.
pub fn push_plain_hit(out: &mut String, hit: &SearchResult)
    ensures
        final(out)@ == old(out)@ + plain_hit_line(hit@),
{
    out.append(hit.path.as_str());
    out.push(':');
    push_decimal(out, hit.line as u64);
    out.push(':');
    out.push(' ');
    out.append(hit.content.as_str());
    proof {
        assert(final(out)@ =~= old(out)@ + plain_hit_line(hit@));
    }
}

/// The character that stands for a hexadecimal digit, in lower case.
pub open spec fn hex_digit(d: nat) -> char {
    if d < 10 {
        digit(d)
    } else if d == 10 {
        'a'
    } else if d == 11 {
        'b'
    } else if d == 12 {
        'c'
    } else if d == 13 {
        'd'
    } else if d == 14 {
        'e'
    } else {
        'f'
    }
}

/// One character as it stands inside a JSON string. The double quote and the
/// backslash get a backslash before them. The control characters below the
/// space are written as `\b`, `\t`, `\n`, `\f`, `\r` where JSON has such a
/// short form, and else as `\u00` and two hexadecimal digits. Every other
/// character stands for itself.
pub open spec fn json_escape(c: char) -> Seq<char> {
    let n = c as u32;
    if n == 0x22 {
        seq!['\\', '"']
    } else if n == 0x5C {
        seq!['\\', '\\']
    } else if n == 0x08 {
        seq!['\\', 'b']
    } else if n == 0x09 {
        seq!['\\', 't']
    } else if n == 0x0A {
        seq!['\\', 'n']
    } else if n == 0x0C {
        seq!['\\', 'f']
    } else if n == 0x0D {
        seq!['\\', 'r']
    } else if n < 0x20 {
        seq!['\\', 'u', '0', '0', hex_digit((n / 16) as nat), hex_digit((n % 16) as nat)]
    } else {
        seq![c]
    }
}

/// The characters of a text, each as it stands inside a JSON string.
pub open spec fn json_escaped(s: Seq<char>) -> Seq<char>
    decreases s.len(),
{
    if s.len() == 0 {
        Seq::empty()
    } else {
        json_escaped(s.drop_last()) + json_escape(s.last())
    }
}

/// A text as a JSON string: its characters, each as it stands inside a JSON
/// string, between two double quotes.
pub open spec fn json_string(s: Seq<char>) -> Seq<char> {
    seq!['"'] + json_escaped(s) + seq!['"']
}

/// The character stands for itself inside a JSON string: it is neither the
/// double quote nor the backslash nor a control character below the space.
pub open spec fn stands_for_itself(c: char) -> bool {
    let n = c as u32;
    n != 0x22 && n != 0x5C && n >= 0x20
}

/// A text of characters that stand for themselves is, as a JSON string, the
/// text between two double quotes.
pub proof fn lemma_json_string_of_plain_text(s: Seq<char>)
    requires
        forall|i: int| 0 <= i < s.len() ==> stands_for_itself(#[trigger] s[i]),
    ensures
        json_escaped(s) == s,
        json_string(s) == seq!['"'] + s + seq!['"'],
    decreases s.len(),
{
    if s.len() > 0 {
        let shorter = s.drop_last();
        assert forall|i: int| 0 <= i < shorter.len() implies stands_for_itself(
            #[trigger] shorter[i],
        ) by {
            assert(shorter[i] == s[i]);
        }
        lemma_json_string_of_plain_text(shorter);
        assert(stands_for_itself(s[s.len() - 1]));
        assert(json_escape(s.last()) == seq![s.last()]);
        assert(shorter + seq![s.last()] =~= s);
    } else {
        assert(json_escaped(s) =~= s);
    }
}

/// `serde_json::Error`: the error that the JSON encoder can return. Nothing
/// is known of what it holds.
#[verifier::external_type_specification]
#[verifier::external_body]
pub struct ExJsonError(serde_json::Error);

/// A record could not be rendered. It stands for the error of the JSON
/// encoder, which does not occur on a text: the contracts of the rendering
/// functions show that they never return it.
#[derive(Debug, Clone, Copy, PartialEq, Eq, Structural)]
pub enum RenderError {
    /// The JSON encoder returned an error.
    Encoding,
}

/// `serde_json::to_string`, called on a text, gives the text as a JSON
/// string, which [`json_string`] spells out. It always succeeds on a text: it
/// writes into a vector of its own, and the encoder's only error on a text is
/// that of its writer.
#[verifier::external_body]
fn json_text(s: &str) -> (r: Result<String, serde_json::Error>)
    ensures
        r is Ok,
        r matches Ok(t) ==> t@ == json_string(s@),
{
    serde_json::to_string(s)
}

/// The JSON record of a file, given its path as a JSON string.
pub open spec fn json_file_record(path_json: Seq<char>, size: u64) -> Seq<char> {
    seq!['{', '"', 'p', 'a', 't', 'h', '"', ':'] + path_json + seq![
        ',',
        '"',
        's',
        'i',
        'z',
        'e',
        '"',
        ':',
    ] + decimal(size as nat) + seq!['}']
}

/// The JSON record of a hit, given its path and its content as JSON strings.
pub open spec fn json_hit_record(
    path_json: Seq<char>,
    line: nat,
    content_json: Seq<char>,
) -> Seq<char> {
    seq!['{', '"', 'p', 'a', 't', 'h', '"', ':'] + path_json + seq![
        ',',
        '"',
        'l',
        'i',
        'n',
        'e',
        '"',
        ':',
    ] + decimal(line) + seq![',', '"', 'c', 'o', 'n', 't', 'e', 'n', 't', '"', ':']
        + content_json + seq!['}']
}

/// Appends the JSON record of a file to `out`, given its path as a JSON
/// string.
pub fn push_json_file(out: &mut String, path_json: &str, size: u64)
    ensures
        final(out)@ == old(out)@ + json_file_record(path_json@, size),
{
    proof {
        reveal_strlit("{\"path\":");
        reveal_strlit(",\"size\":");
        assert("{\"path\":"@ =~= seq!['{', '"', 'p', 'a', 't', 'h', '"', ':']);
        assert(",\"size\":"@ =~= seq![',', '"', 's', 'i', 'z', 'e', '"', ':']);
    }
    out.append("{\"path\":");
    out.append(path_json);
    out.append(",\"size\":");
    push_decimal(out, size);
    out.push('}');
    proof {
        assert(final(out)@ =~= old(out)@ + json_file_record(path_json@, size));
    }
}

/// Appends the JSON record of a hit to `out`, given its path and its content
/// as JSON strings.
pub fn push_json_hit(out: &mut String, path_json: &str, line: usize, content_json: &str)
    ensures
        final(out)@ == old(out)@ + json_hit_record(path_json@, line as nat, content_json@),
{
    proof {
        reveal_strlit("{\"path\":");
        reveal_strlit(",\"line\":");
        reveal_strlit(",\"content\":");
        assert("{\"path\":"@ =~= seq!['{', '"', 'p', 'a', 't', 'h', '"', ':']);
        assert(",\"line\":"@ =~= seq![',', '"', 'l', 'i', 'n', 'e', '"', ':']);
        assert(",\"content\":"@ =~= seq![
            ',',
            '"',
            'c',
            'o',
            'n',
            't',
            'e',
            'n',
            't',
            '"',
            ':',
        ]);
    }
    out.append("{\"path\":");
    out.append(path_json);
    out.append(",\"line\":");
    push_decimal(out, line as u64);
    out.append(",\"content\":");
    out.append(content_json);
    out.push('}');
    proof {
        assert(final(out)@ =~= old(out)@ + json_hit_record(
            path_json@,
            line as nat,
            content_json@,
        ));
    }
}

/// The line of a file in the structured format, without its line feed.
pub open spec fn structured_file_line(file: FileRecord) -> Seq<char> {
    json_file_record(json_string(file.path), file.size)
}

/// The line of a hit in the structured format, without its line feed.
pub open spec fn structured_hit_line(hit: SearchHit) -> Seq<char> {
    json_hit_record(json_string(hit.path), hit.line, json_string(hit.content))
}

/// The line of a file in the given format, without its line feed.
pub open spec fn file_line(file: FileRecord, format: OutputFormat) -> Seq<char> {
    match format {
        OutputFormat::Toon => compact_file_line(file),
        OutputFormat::Json => structured_file_line(file),
        OutputFormat::Plain => plain_file_line(file),
    }
}

/// The line of a hit in the given format, without its line feed.
pub open spec fn hit_line(hit: SearchHit, format: OutputFormat) -> Seq<char> {
    match format {
        OutputFormat::Toon => compact_hit_line(hit),
        OutputFormat::Json => structured_hit_line(hit),
        OutputFormat::Plain => plain_hit_line(hit),
    }
}

/// Appends the line of a file in the given format to `out`. It always
/// succeeds: the error of the JSON encoder does not occur on a text.
pub fn push_file_line(out: &mut String, file: &FileInfo, format: OutputFormat) -> (r: Result<
    (),
    RenderError,
>)
    ensures
        r is Ok,
        final(out)@ == old(out)@ + file_line(file@, format),
{
    match format {
        OutputFormat::Toon => {
            push_compact_file(out, file);
            Ok(())
        },
        OutputFormat::Plain => {
            push_plain_file(out, file);
            Ok(())
        },
        OutputFormat::Json => match json_text(file.path.as_str()) {
            Ok(path_json) => {
                push_json_file(out, path_json.as_str(), file.size);
                Ok(())
            },
            Err(_) => Err(RenderError::Encoding),
        },
    }
}

/// Appends the line of a hit in the given format to `out`. It always
/// succeeds: the error of the JSON encoder does not occur on a text.
pub fn push_hit_line(out: &mut String, hit: &SearchResult, format: OutputFormat) -> (r: Result<
    (),
    RenderError,
>)
    ensures
        r is Ok,
        final(out)@ == old(out)@ + hit_line(hit@, format),
{
    match format {
        OutputFormat::Toon => {
            push_compact_hit(out, hit);
            Ok(())
        },
        OutputFormat::Plain => {
            push_plain_hit(out, hit);
            Ok(())
        },
        OutputFormat::Json => match json_text(hit.path.as_str()) {
            Ok(path_json) => match json_text(hit.content.as_str()) {
                Ok(content_json) => {
                    push_json_hit(out, path_json.as_str(), hit.line, content_json.as_str());
                    Ok(())
                },
                Err(_) => Err(RenderError::Encoding),
            },
            Err(_) => Err(RenderError::Encoding),
        },
    }
}

/// The header of the files of a run: the compact format names the fields of
/// its lines, the other formats have none.
pub open spec fn file_header(format: OutputFormat) -> Seq<char> {
    match format {
        OutputFormat::Toon => seq!['p', 'a', 't', 'h', ',', 's', 'i', 'z', 'e', ':', '\n'],
        _ => Seq::empty(),
    }
}

/// The header of the hits of a run: the compact format names the fields of
/// its lines, the other formats have none.
pub open spec fn search_header(format: OutputFormat) -> Seq<char> {
    match format {
        OutputFormat::Toon => seq![
            'p',
            'a',
            't',
            'h',
            ',',
            'l',
            'i',
            'n',
            'e',
            ',',
            'c',
            'o',
            'n',
            't',
            'e',
            'n',
            't',
            ':',
            '\n',
        ],
        _ => Seq::empty(),
    }
}

/// What a streaming run writes before its first file.
pub fn stream_file_header(format: OutputFormat) -> (r: String)
    ensures
        r@ == file_header(format),
{
    let mut out = String::new();
    match format {
        OutputFormat::Toon => {
            proof {
                reveal_strlit("path,size:\n");
                assert("path,size:\n"@ =~= file_header(format));
            }
            out.append("path,size:\n");
            proof {
                assert(out@ =~= file_header(format));
            }
        },
        _ => {},
    }
    out
}

/// What a streaming run writes before its first hit.
pub fn stream_search_header(format: OutputFormat) -> (r: String)
    ensures
        r@ == search_header(format),
{
    let mut out = String::new();
    match format {
        OutputFormat::Toon => {
            proof {
                reveal_strlit("path,line,content:\n");
                assert("path,line,content:\n"@ =~= search_header(format));
            }
            out.append("path,line,content:\n");
            proof {
                assert(out@ =~= search_header(format));
            }
        },
        _ => {},
    }
    out
}

/// What a streaming run writes for one file: its line and a line feed, in
/// every format.
pub fn stream_file(file: &FileInfo, format: OutputFormat) -> (r: Result<String, RenderError>)
    ensures
        r matches Ok(t) && t@ == file_line(file@, format) + seq!['\n'],
{
    let mut out = String::new();
    match push_file_line(&mut out, file, format) {
        Ok(()) => {
            out.push('\n');
            proof {
                assert(out@ =~= file_line(file@, format) + seq!['\n']);
            }
            Ok(out)
        },
        Err(e) => Err(e),
    }
}

/// What a streaming run writes for one hit: its line and a line feed, in
/// every format.
pub fn stream_search(hit: &SearchResult, format: OutputFormat) -> (r: Result<String, RenderError>)
    ensures
        r matches Ok(t) && t@ == hit_line(hit@, format) + seq!['\n'],
{
    let mut out = String::new();
    match push_hit_line(&mut out, hit, format) {
        Ok(()) => {
            out.push('\n');
            proof {
                assert(out@ =~= hit_line(hit@, format) + seq!['\n']);
            }
            Ok(out)
        },
        Err(e) => Err(e),
    }
}

/// The lines of the files, each with its line feed, one after the other.
pub open spec fn file_rows(files: Seq<FileRecord>, format: OutputFormat) -> Seq<char>
    decreases files.len(),
{
    if files.len() == 0 {
        Seq::empty()
    } else {
        file_rows(files.drop_last(), format) + file_line(files.last(), format) + seq!['\n']
    }
}

/// The lines of the hits, each with its line feed, one after the other.
pub open spec fn hit_rows(found: Seq<SearchHit>, format: OutputFormat) -> Seq<char>
    decreases found.len(),
{
    if found.len() == 0 {
        Seq::empty()
    } else {
        hit_rows(found.drop_last(), format) + hit_line(found.last(), format) + seq!['\n']
    }
}

/// The structured records of the files with a comma between them.
pub open spec fn file_items(files: Seq<FileRecord>) -> Seq<char>
    decreases files.len(),
{
    if files.len() == 0 {
        Seq::empty()
    } else if files.len() == 1 {
        structured_file_line(files.last())
    } else {
        file_items(files.drop_last()) + seq![','] + structured_file_line(files.last())
    }
}

/// The structured records of the hits with a comma between them.
pub open spec fn hit_items(found: Seq<SearchHit>) -> Seq<char>
    decreases found.len(),
{
    if found.len() == 0 {
        Seq::empty()
    } else if found.len() == 1 {
        structured_hit_line(found.last())
    } else {
        hit_items(found.drop_last()) + seq![','] + structured_hit_line(found.last())
    }
}

/// The files of a whole run as one text. The compact format gives its header
/// and a line for each file; plain text gives a line for each file; the
/// structured format gives one line that holds a JSON array of the records.
pub open spec fn files_document(files: Seq<FileRecord>, format: OutputFormat) -> Seq<char> {
    match format {
        OutputFormat::Json => seq!['['] + file_items(files) + seq![']', '\n'],
        _ => file_header(format) + file_rows(files, format),
    }
}

/// The hits of a whole run as one text, laid out as the files of a run are.
pub open spec fn search_document(found: Seq<SearchHit>, format: OutputFormat) -> Seq<char> {
    match format {
        OutputFormat::Json => seq!['['] + hit_items(found) + seq![']', '\n'],
        _ => search_header(format) + hit_rows(found, format),
    }
}

/// A streaming run and a whole run write the same text in the compact format
/// and in plain text: the header once, before the first file, and then for
/// each file its line and a line feed.
pub proof fn lemma_streamed_files_are_the_document(
    files: Seq<FileRecord>,
    next: FileRecord,
    format: OutputFormat,
)
    requires
        format != OutputFormat::Json,
    ensures
        files_document(Seq::empty(), format) == file_header(format),
        files_document(files.push(next), format) == files_document(files, format) + file_line(
            next,
            format,
        ) + seq!['\n'],
{
    assert(files_document(Seq::empty(), format) =~= file_header(format));
    assert(files.push(next).drop_last() =~= files);
    assert(files_document(files.push(next), format) =~= files_document(files, format)
        + file_line(next, format) + seq!['\n']);
}

/// A streaming run and a whole run write the same hits in the compact format
/// and in plain text: the header once, before the first hit, and then for
/// each hit its line and a line feed.
pub proof fn lemma_streamed_hits_are_the_document(
    found: Seq<SearchHit>,
    next: SearchHit,
    format: OutputFormat,
)
    requires
        format != OutputFormat::Json,
    ensures
        search_document(Seq::empty(), format) == search_header(format),
        search_document(found.push(next), format) == search_document(found, format) + hit_line(
            next,
            format,
        ) + seq!['\n'],
{
    assert(search_document(Seq::empty(), format) =~= search_header(format));
    assert(found.push(next).drop_last() =~= found);
    assert(search_document(found.push(next), format) =~= search_document(found, format)
        + hit_line(next, format) + seq!['\n']);
}

/// Appends the lines of the files in the compact format or in plain text.
fn push_file_rows(out: &mut String, files: &[FileInfo], format: OutputFormat)
    requires
        format != OutputFormat::Json,
    ensures
        final(out)@ == old(out)@ + file_rows(records(files@), format),
{
    let ghost all = records(files@);
    let mut i: usize = 0;
    proof {
        assert(all.take(0) =~= Seq::<FileRecord>::empty());
        assert(out@ =~= old(out)@ + file_rows(all.take(0), format));
    }
    while i < files.len()
        invariant
            i <= files.len(),
            format != OutputFormat::Json,
            all == records(files@),
            out@ == old(out)@ + file_rows(all.take(i as int), format),
        decreases files.len() - i,
    {
        proof {
            let next = all.take(i + 1);
            assert(next.drop_last() =~= all.take(i as int));
            assert(next.last() == files[i as int]@);
        }
        match format {
            OutputFormat::Toon => push_compact_file(out, &files[i]),
            _ => push_plain_file(out, &files[i]),
        }
        out.push('\n');
        proof {
            assert(out@ =~= old(out)@ + file_rows(all.take(i + 1), format));
        }
        i += 1;
    }
    proof {
        assert(all.take(i as int) =~= all);
    }
}

/// Appends the lines of the hits in the compact format or in plain text.
fn push_hit_rows(out: &mut String, found: &[SearchResult], format: OutputFormat)
    requires
        format != OutputFormat::Json,
    ensures
        final(out)@ == old(out)@ + hit_rows(hits(found@), format),
{
    let ghost all = hits(found@);
    let mut i: usize = 0;
    proof {
        assert(all.take(0) =~= Seq::<SearchHit>::empty());
        assert(out@ =~= old(out)@ + hit_rows(all.take(0), format));
    }
    while i < found.len()
        invariant
            i <= found.len(),
            format != OutputFormat::Json,
            all == hits(found@),
            out@ == old(out)@ + hit_rows(all.take(i as int), format),
        decreases found.len() - i,
    {
        proof {
            let next = all.take(i + 1);
            assert(next.drop_last() =~= all.take(i as int));
            assert(next.last() == found[i as int]@);
        }
        match format {
            OutputFormat::Toon => push_compact_hit(out, &found[i]),
            _ => push_plain_hit(out, &found[i]),
        }
        out.push('\n');
        proof {
            assert(out@ =~= old(out)@ + hit_rows(all.take(i + 1), format));
        }
        i += 1;
    }
    proof {
        assert(all.take(i as int) =~= all);
    }
}

/// The files of a run in the compact format: the header, then a line for
/// each file.
pub fn toon_files(files: &[FileInfo]) -> (r: String)
    ensures
        r@ == files_document(records(files@), OutputFormat::Toon),
{
    let mut out = stream_file_header(OutputFormat::Toon);
    push_file_rows(&mut out, files, OutputFormat::Toon);
    out
}

/// The hits of a run in the compact format: the header, then a line for
/// each hit.
pub fn toon_search(found: &[SearchResult]) -> (r: String)
    ensures
        r@ == search_document(hits(found@), OutputFormat::Toon),
{
    let mut out = stream_search_header(OutputFormat::Toon);
    push_hit_rows(&mut out, found, OutputFormat::Toon);
    out
}

/// The files of a run in plain text: a line for each file.
pub fn plain_files(files: &[FileInfo]) -> (r: String)
    ensures
        r@ == files_document(records(files@), OutputFormat::Plain),
{
    let mut out = String::new();
    push_file_rows(&mut out, files, OutputFormat::Plain);
    proof {
        assert(out@ =~= files_document(records(files@), OutputFormat::Plain));
    }
    out
}

/// The hits of a run in plain text: a line for each hit.
pub fn plain_search(found: &[SearchResult]) -> (r: String)
    ensures
        r@ == search_document(hits(found@), OutputFormat::Plain),
{
    let mut out = String::new();
    push_hit_rows(&mut out, found, OutputFormat::Plain);
    proof {
        assert(out@ =~= search_document(hits(found@), OutputFormat::Plain));
    }
    out
}

/// The files of a run in the structured format: one line that holds a JSON
/// array of the records. It always succeeds.
pub fn json_files(files: &[FileInfo]) -> (r: Result<String, RenderError>)
    ensures
        r matches Ok(t) && t@ == files_document(records(files@), OutputFormat::Json),
{
    let ghost all = records(files@);
    let mut out = String::new();
    out.push('[');
    let mut i: usize = 0;
    proof {
        assert(all.take(0) =~= Seq::<FileRecord>::empty());
        assert(out@ =~= seq!['['] + file_items(all.take(0)));
    }
    while i < files.len()
        invariant
            i <= files.len(),
            all == records(files@),
            out@ == seq!['['] + file_items(all.take(i as int)),
        decreases files.len() - i,
    {
        proof {
            let next = all.take(i + 1);
            assert(next.drop_last() =~= all.take(i as int));
            assert(next.last() == files[i as int]@);
        }
        if i > 0 {
            out.push(',');
        }
        match push_file_line(&mut out, &files[i], OutputFormat::Json) {
            Ok(()) => {},
            Err(e) => {
                return Err(e);
            },
        }
        proof {
            assert(out@ =~= seq!['['] + file_items(all.take(i + 1)));
        }
        i += 1;
    }
    out.push(']');
    out.push('\n');
    proof {
        assert(all.take(i as int) =~= all);
        assert(out@ =~= files_document(all, OutputFormat::Json));
    }
    Ok(out)
}

/// The hits of a run in the structured format: one line that holds a JSON
/// array of the records. It always succeeds.
pub fn json_search(found: &[SearchResult]) -> (r: Result<String, RenderError>)
    ensures
        r matches Ok(t) && t@ == search_document(hits(found@), OutputFormat::Json),
{
    let ghost all = hits(found@);
    let mut out = String::new();
    out.push('[');
    let mut i: usize = 0;
    proof {
        assert(all.take(0) =~= Seq::<SearchHit>::empty());
        assert(out@ =~= seq!['['] + hit_items(all.take(0)));
    }
    while i < found.len()
        invariant
            i <= found.len(),
            all == hits(found@),
            out@ == seq!['['] + hit_items(all.take(i as int)),
        decreases found.len() - i,
    {
        proof {
            let next = all.take(i + 1);
            assert(next.drop_last() =~= all.take(i as int));
            assert(next.last() == found[i as int]@);
        }
        if i > 0 {
            out.push(',');
        }
        match push_hit_line(&mut out, &found[i], OutputFormat::Json) {
            Ok(()) => {},
            Err(e) => {
                return Err(e);
            },
        }
        proof {
            assert(out@ =~= seq!['['] + hit_items(all.take(i + 1)));
        }
        i += 1;
    }
    out.push(']');
    out.push('\n');
    proof {
        assert(all.take(i as int) =~= all);
        assert(out@ =~= search_document(all, OutputFormat::Json));
    }
    Ok(out)
}

/// The files of a whole run as one text in the given format. It always
/// succeeds.
pub fn render_files(files: &[FileInfo], format: OutputFormat) -> (r: Result<String, RenderError>)
    ensures
        r matches Ok(t) && t@ == files_document(records(files@), format),
{
    match format {
        OutputFormat::Toon => Ok(toon_files(files)),
        OutputFormat::Plain => Ok(plain_files(files)),
        OutputFormat::Json => json_files(files),
    }
}

/// The hits of a whole run as one text in the given format. It always
/// succeeds.
pub fn render_search(found: &[SearchResult], format: OutputFormat) -> (r: Result<
    String,
    RenderError,
>)
    ensures
        r matches Ok(t) && t@ == search_document(hits(found@), format),
{
    match format {
        OutputFormat::Toon => Ok(toon_search(found)),
        OutputFormat::Plain => Ok(plain_search(found)),
        OutputFormat::Json => json_search(found),
    }
}

} // verus!
