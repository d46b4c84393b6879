//! MIME type and content-encoding of a file, from the extensions of its
//! name.

use vstd::prelude::*;
use vstd::string::*;
use crate::text::{chars_of, chars_equal, split_on, split_chars, path_file_name, file_name_of, lemma_split_snoc, lemma_split_nonempty};

verus! {

/// The type and encoding that a file is served with. The encoding lists
/// the encodings of the name's extensions, rightmost first, joined by
/// commas; `.tar.gz` gives type `application/x-tar` and encoding `gzip`.
pub struct MimeInfo {
    pub mime_type: &'static str,
    pub encoding: Option<&'static str>,
}

/// The type used when no extension names one.
pub open spec fn default_type() -> Seq<char> {
    "application/octet-stream"@
}

/// The encodings table.
pub open spec fn encoding_of(ext: Seq<char>) -> Option<Seq<char>> {
    if ext == "gz"@ {
        Some("gzip"@)
    } else if ext == "bz2"@ {
        Some("x-bzip2"@)
    } else if ext == "Z"@ {
        Some("compress"@)
    } else {
        None
    }
}

/// The types table.
pub open spec fn type_of(ext: Seq<char>) -> Option<Seq<char>> {
    if ext == "html"@ || ext == "htm"@ {
        Some("text/html"@)
    } else if ext == "css"@ {
        Some("text/css"@)
    } else if ext == "js"@ {
        Some("application/javascript"@)
    } else if ext == "txt"@ {
        Some("text/plain"@)
    } else if ext == "json"@ {
        Some("application/json"@)
    } else if ext == "xml"@ {
        Some("application/xml"@)
    } else if ext == "png"@ {
        Some("image/png"@)
    } else if ext == "jpg"@ || ext == "jpeg"@ {
        Some("image/jpeg"@)
    } else if ext == "gif"@ {
        Some("image/gif"@)
    } else if ext == "svg"@ {
        Some("image/svg+xml"@)
    } else if ext == "ico"@ {
        Some("image/x-icon"@)
    } else if ext == "pdf"@ {
        Some("application/pdf"@)
    } else if ext == "zip"@ {
        Some("application/zip"@)
    } else if ext == "tar"@ {
        Some("application/x-tar"@)
    } else if ext == "mp3"@ {
        Some("audio/mpeg"@)
    } else if ext == "mp4"@ {
        Some("video/mp4"@)
    } else if ext == "webm"@ {
        Some("video/webm"@)
    } else if ext == "wav"@ {
        Some("audio/wav"@)
    } else if ext == "ogg"@ {
        Some("audio/ogg"@)
    } else if ext == "doc"@ {
        Some("application/msword"@)
    } else if ext == "xls"@ {
        Some("application/vnd.ms-excel"@)
    } else if ext == "ppt"@ {
        Some("application/vnd.ms-powerpoint"@)
    } else if ext == "swf"@ {
        Some("application/x-shockwave-flash"@)
    } else if ext == "wasm"@ {
        Some("application/wasm"@)
    } else {
        None
    }
}

/// The extensions `exts` walked from the right: the encodings met, in the
/// order met, until an extension with a type stops the walk; and that type.
pub open spec fn walk_extensions(exts: Seq<Seq<char>>) -> (Option<Seq<char>>, Seq<Seq<char>>)
    decreases exts.len(),
{
    if exts.len() == 0 {
        (None, Seq::empty())
    } else {
        let e = exts.last();
        let enc = match encoding_of(e) {
            Some(x) => seq![x],
            None => Seq::empty(),
        };
        match type_of(e) {
            Some(t) => (Some(t), enc),
            None => {
                let rest = walk_extensions(exts.drop_last());
                (rest.0, enc + rest.1)
            },
        }
    }
}

/// Pieces joined by commas.
pub open spec fn join_commas(parts: Seq<Seq<char>>) -> Seq<char>
    decreases parts.len(),
{
    if parts.len() == 0 {
        Seq::empty()
    } else if parts.len() == 1 {
        parts[0]
    } else {
        join_commas(parts.drop_last()) + ","@ + parts.last()
    }
}

/// The extensions of a path: the dot-separated pieces of its file name
/// after the first; empty when the path has no file name.
pub open spec fn extensions(filename: Seq<char>) -> Seq<Seq<char>> {
    match path_file_name(filename) {
        Some(n) => split_on(n, '.').skip(1),
        None => Seq::empty(),
    }
}

/// The type of a path.
pub open spec fn mime_type_of(filename: Seq<char>) -> Seq<char> {
    match walk_extensions(extensions(filename)).0 {
        Some(t) => t,
        None => default_type(),
    }
}

/// The encoding of a path.
pub open spec fn mime_encoding_of(filename: Seq<char>) -> Option<Seq<char>> {
    let encs = walk_extensions(extensions(filename)).1;
    if encs.len() == 0 {
        None
    } else {
        Some(join_commas(encs))
    }
}

/// The texts of string slices.
pub open spec fn texts(v: Seq<&'static str>) -> Seq<Seq<char>> {
    v.map_values(|x: &'static str| x@)
}

/// Calls `String::leak`, which hands out the string's contents for the
/// rest of the program.
#[verifier::external_body]
fn leak_text(s: String) -> (r: &'static str)
    ensures
        r@ == s@,
{
    s.leak()
}

fn lookup_encoding(ext: &Vec<char>) -> (r: Option<&'static str>)
    ensures
        match r {
            Some(x) => encoding_of(ext@) == Some(x@),
            None => encoding_of(ext@) is None,
        },
{
    if chars_equal(ext.as_slice(), "gz") {
        Some("gzip")
    } else if chars_equal(ext.as_slice(), "bz2") {
        Some("x-bzip2")
    } else if chars_equal(ext.as_slice(), "Z") {
        Some("compress")
    } else {
        None
    }
}

fn lookup_type(ext: &Vec<char>) -> (r: Option<&'static str>)
    ensures
        match r {
            Some(x) => type_of(ext@) == Some(x@),
            None => type_of(ext@) is None,
        },
{
    let e = ext.as_slice();
    if chars_equal(e, "html") || chars_equal(e, "htm") {
        Some("text/html")
    } else if chars_equal(e, "css") {
        Some("text/css")
    } else if chars_equal(e, "js") {
        Some("application/javascript")
    } else if chars_equal(e, "txt") {
        Some("text/plain")
    } else if chars_equal(e, "json") {
        Some("application/json")
    } else if chars_equal(e, "xml") {
        Some("application/xml")
    } else if chars_equal(e, "png") {
        Some("image/png")
    } else if chars_equal(e, "jpg") || chars_equal(e, "jpeg") {
        Some("image/jpeg")
    } else if chars_equal(e, "gif") {
        Some("image/gif")
    } else if chars_equal(e, "svg") {
        Some("image/svg+xml")
    } else if chars_equal(e, "ico") {
        Some("image/x-icon")
    } else if chars_equal(e, "pdf") {
        Some("application/pdf")
    } else if chars_equal(e, "zip") {
        Some("application/zip")
    } else if chars_equal(e, "tar") {
        Some("application/x-tar")
    } else if chars_equal(e, "mp3") {
        Some("audio/mpeg")
    } else if chars_equal(e, "mp4") {
        Some("video/mp4")
    } else if chars_equal(e, "webm") {
        Some("video/webm")
    } else if chars_equal(e, "wav") {
        Some("audio/wav")
    } else if chars_equal(e, "ogg") {
        Some("audio/ogg")
    } else if chars_equal(e, "doc") {
        Some("application/msword")
    } else if chars_equal(e, "xls") {
        Some("application/vnd.ms-excel")
    } else if chars_equal(e, "ppt") {
        Some("application/vnd.ms-powerpoint")
    } else if chars_equal(e, "swf") {
        Some("application/x-shockwave-flash")
    } else if chars_equal(e, "wasm") {
        Some("application/wasm")
    } else {
        None
    }
}

/// The MIME type and encoding of a file name. Extensions are walked from
/// the right: each encoding extension (`gz`, `bz2`, `Z`) adds to the
/// encoding, and the first extension with a type ends the walk; without
/// one the type is `application/octet-stream`.
pub fn figure_mime(filename: &str) -> (r: MimeInfo)
    ensures
        r.mime_type@ == mime_type_of(filename@),
        match r.encoding {
            Some(e) => mime_encoding_of(filename@) == Some(e@),
            None => mime_encoding_of(filename@) is None,
        },
{
    let name = match file_name_of(filename) {
        Some(n) => n,
        None => {
            return MimeInfo { mime_type: "application/octet-stream", encoding: None };
        },
    };
    let cs = chars_of(name.as_str());
    let pieces = split_chars(cs.as_slice(), '.');
    let ghost exts = split_on(name@, '.').skip(1);
    assert(exts == extensions(filename@));
    // Walk the extensions from the right: pieces[1..k] remain.
    let mut k: usize = pieces.len();
    let mut encs: Vec<&'static str> = Vec::new();
    let mut found: Option<&'static str> = None;
    assert(exts.take(pieces@.len() - 1) =~= exts);
    while k > 1
        invariant_except_break
            found is None,
            ({
                let w = walk_extensions(exts);
                let rest = walk_extensions(exts.take(k - 1));
                &&& w.0 == rest.0
                &&& w.1 == texts(encs@) + rest.1
            }),
        invariant
            1 <= k <= pieces@.len(),
            pieces@.len() == split_on(name@, '.').len(),
            forall|i: int| 0 <= i < pieces@.len() ==> #[trigger] pieces@[i]@ == split_on(name@, '.')[i],
            exts == split_on(name@, '.').skip(1),
        ensures
            ({
                let w = walk_extensions(exts);
                &&& match found {
                    Some(t) => w.0 == Some(t@),
                    None => w.0 is None,
                }
                &&& w.1 == texts(encs@)
            }),
        decreases k,
    {
        let ext = &pieces[k - 1];
        let ghost pre = exts.take(k - 1);
        assert(pre.last() == ext@);
        assert(pre.drop_last() =~= exts.take(k - 2));
        let ghost old_encs = texts(encs@);
        match lookup_encoding(ext) {
            Some(enc) => {
                encs.push(enc);
            },
            None => {},
        }
        match lookup_type(ext) {
            Some(t) => {
                found = Some(t);
                assert(texts(encs@) =~= old_encs + walk_extensions(pre).1);
                break;
            },
            None => {},
        }
        assert(texts(encs@) + walk_extensions(exts.take(k - 2)).1
            =~= old_encs + walk_extensions(pre).1);
        k -= 1;
    }
    let mime_type = match found {
        Some(t) => t,
        None => "application/octet-stream",
    };
    if encs.len() == 0 {
        return MimeInfo { mime_type, encoding: None };
    }
    let mut joined = encs[0].to_owned();
    let mut i: usize = 1;
    while i < encs.len()
        invariant
            1 <= i <= encs@.len(),
            joined@ == join_commas(texts(encs@).take(i as int)),
        decreases encs@.len() - i,
    {
        let ghost v = texts(encs@);
        joined.append(",");
        joined.append(encs[i]);
        assert(v.take(i + 1).drop_last() =~= v.take(i as int));
        i += 1;
    }
    let ghost v = texts(encs@);
    assert(v.take(i as int) =~= v);
    MimeInfo { mime_type, encoding: Some(leak_text(joined)) }
}

/// The MIME type of a file name.
pub fn mime_type(filename: &str) -> (r: &'static str)
    ensures
        r@ == mime_type_of(filename@),
{
    figure_mime(filename).mime_type
}

/// The content encoding of a file name, if any.
pub fn mime_encoding(filename: &str) -> (r: Option<&'static str>)
    ensures
        match r {
            Some(e) => mime_encoding_of(filename@) == Some(e@),
            None => mime_encoding_of(filename@) is None,
        },
{
    figure_mime(filename).encoding
}

// ---------------------------------------------------------------- table laws

/// The extensions that name a type, each with the type it is served as.
pub open spec fn served_types() -> Seq<(Seq<char>, Seq<char>)> {
    seq![
    ("html"@, "text/html"@),
    ("htm"@, "text/html"@),
    ("css"@, "text/css"@),
    ("js"@, "application/javascript"@),
    ("txt"@, "text/plain"@),
    ("json"@, "application/json"@),
    ("xml"@, "application/xml"@),
    ("png"@, "image/png"@),
    ("jpg"@, "image/jpeg"@),
    ("jpeg"@, "image/jpeg"@),
    ("gif"@, "image/gif"@),
    ("svg"@, "image/svg+xml"@),
    ("ico"@, "image/x-icon"@),
    ("pdf"@, "application/pdf"@),
    ("zip"@, "application/zip"@),
    ("tar"@, "application/x-tar"@),
    ("mp3"@, "audio/mpeg"@),
    ("mp4"@, "video/mp4"@),
    ("webm"@, "video/webm"@),
    ("wav"@, "audio/wav"@),
    ("ogg"@, "audio/ogg"@),
    ("doc"@, "application/msword"@),
    ("xls"@, "application/vnd.ms-excel"@),
    ("ppt"@, "application/vnd.ms-powerpoint"@),
    ("swf"@, "application/x-shockwave-flash"@),
    ("wasm"@, "application/wasm"@),
    ]
}

/// The compression extensions, each with its content encoding.
pub open spec fn compressions() -> Seq<(Seq<char>, Seq<char>)> {
    seq![("gz"@, "gzip"@), ("bz2"@, "x-bzip2"@), ("Z"@, "compress"@)]
}

/// The letters that tell the table's extensions apart.
proof fn lemma_key_letters()
    ensures
        "html"@.len() == 4,
        "html"@[0] == 'h',
        "html"@[1] == 't',
        "html"@[2] == 'm',
        "htm"@.len() == 3,
        "htm"@[0] == 'h',
        "htm"@[1] == 't',
        "htm"@[2] == 'm',
        "css"@.len() == 3,
        "css"@[0] == 'c',
        "css"@[1] == 's',
        "css"@[2] == 's',
        "js"@.len() == 2,
        "js"@[0] == 'j',
        "js"@[1] == 's',
        "txt"@.len() == 3,
        "txt"@[0] == 't',
        "txt"@[1] == 'x',
        "txt"@[2] == 't',
        "json"@.len() == 4,
        "json"@[0] == 'j',
        "json"@[1] == 's',
        "json"@[2] == 'o',
        "xml"@.len() == 3,
        "xml"@[0] == 'x',
        "xml"@[1] == 'm',
        "xml"@[2] == 'l',
        "png"@.len() == 3,
        "png"@[0] == 'p',
        "png"@[1] == 'n',
        "png"@[2] == 'g',
        "jpg"@.len() == 3,
        "jpg"@[0] == 'j',
        "jpg"@[1] == 'p',
        "jpg"@[2] == 'g',
        "jpeg"@.len() == 4,
        "jpeg"@[0] == 'j',
        "jpeg"@[1] == 'p',
        "jpeg"@[2] == 'e',
        "gif"@.len() == 3,
        "gif"@[0] == 'g',
        "gif"@[1] == 'i',
        "gif"@[2] == 'f',
        "svg"@.len() == 3,
        "svg"@[0] == 's',
        "svg"@[1] == 'v',
        "svg"@[2] == 'g',
        "ico"@.len() == 3,
        "ico"@[0] == 'i',
        "ico"@[1] == 'c',
        "ico"@[2] == 'o',
        "pdf"@.len() == 3,
        "pdf"@[0] == 'p',
        "pdf"@[1] == 'd',
        "pdf"@[2] == 'f',
        "zip"@.len() == 3,
        "zip"@[0] == 'z',
        "zip"@[1] == 'i',
        "zip"@[2] == 'p',
        "tar"@.len() == 3,
        "tar"@[0] == 't',
        "tar"@[1] == 'a',
        "tar"@[2] == 'r',
        "mp3"@.len() == 3,
        "mp3"@[0] == 'm',
        "mp3"@[1] == 'p',
        "mp3"@[2] == '3',
        "mp4"@.len() == 3,
        "mp4"@[0] == 'm',
        "mp4"@[1] == 'p',
        "mp4"@[2] == '4',
        "webm"@.len() == 4,
        "webm"@[0] == 'w',
        "webm"@[1] == 'e',
        "webm"@[2] == 'b',
        "wav"@.len() == 3,
        "wav"@[0] == 'w',
        "wav"@[1] == 'a',
        "wav"@[2] == 'v',
        "ogg"@.len() == 3,
        "ogg"@[0] == 'o',
        "ogg"@[1] == 'g',
        "ogg"@[2] == 'g',
        "doc"@.len() == 3,
        "doc"@[0] == 'd',
        "doc"@[1] == 'o',
        "doc"@[2] == 'c',
        "xls"@.len() == 3,
        "xls"@[0] == 'x',
        "xls"@[1] == 'l',
        "xls"@[2] == 's',
        "ppt"@.len() == 3,
        "ppt"@[0] == 'p',
        "ppt"@[1] == 'p',
        "ppt"@[2] == 't',
        "swf"@.len() == 3,
        "swf"@[0] == 's',
        "swf"@[1] == 'w',
        "swf"@[2] == 'f',
        "wasm"@.len() == 4,
        "wasm"@[0] == 'w',
        "wasm"@[1] == 'a',
        "wasm"@[2] == 's',
        "gz"@.len() == 2,
        "gz"@[0] == 'g',
        "gz"@[1] == 'z',
        "bz2"@.len() == 3,
        "bz2"@[0] == 'b',
        "bz2"@[1] == 'z',
        "bz2"@[2] == '2',
        "Z"@.len() == 1,
        "Z"@[0] == 'Z',
{
    reveal_strlit("html");
    reveal_strlit("htm");
    reveal_strlit("css");
    reveal_strlit("js");
    reveal_strlit("txt");
    reveal_strlit("json");
    reveal_strlit("xml");
    reveal_strlit("png");
    reveal_strlit("jpg");
    reveal_strlit("jpeg");
    reveal_strlit("gif");
    reveal_strlit("svg");
    reveal_strlit("ico");
    reveal_strlit("pdf");
    reveal_strlit("zip");
    reveal_strlit("tar");
    reveal_strlit("mp3");
    reveal_strlit("mp4");
    reveal_strlit("webm");
    reveal_strlit("wav");
    reveal_strlit("ogg");
    reveal_strlit("doc");
    reveal_strlit("xls");
    reveal_strlit("ppt");
    reveal_strlit("swf");
    reveal_strlit("wasm");
    reveal_strlit("gz");
    reveal_strlit("bz2");
    reveal_strlit("Z");
}

/// Each listed extension names its listed type and no encoding.
proof fn lemma_served_entry(k: int)
    requires
        0 <= k < served_types().len(),
    ensures
        type_of(served_types()[k].0) == Some(served_types()[k].1),
        encoding_of(served_types()[k].0) is None,
{
    lemma_key_letters();
    if k == 0 {
    } else if k == 1 {
    } else if k == 2 {
    } else if k == 3 {
    } else if k == 4 {
    } else if k == 5 {
    } else if k == 6 {
    } else if k == 7 {
    } else if k == 8 {
    } else if k == 9 {
    } else if k == 10 {
    } else if k == 11 {
    } else if k == 12 {
    } else if k == 13 {
    } else if k == 14 {
    } else if k == 15 {
    } else if k == 16 {
    } else if k == 17 {
    } else if k == 18 {
    } else if k == 19 {
    } else if k == 20 {
    } else if k == 21 {
    } else if k == 22 {
    } else if k == 23 {
    } else if k == 24 {
    } else if k == 25 {
    } else {
    }
}

/// Each compression extension names its encoding and no type.
proof fn lemma_compression_entry(j: int)
    requires
        0 <= j < compressions().len(),
    ensures
        encoding_of(compressions()[j].0) == Some(compressions()[j].1),
        type_of(compressions()[j].0) is None,
{
    lemma_key_letters();
    if j == 0 {
    } else if j == 1 {
    } else {
    }
}

/// The extensions of a file name `x.e` are those of `x`'s pieces after the
/// first, then `e`.
proof fn lemma_last_extension(filename: Seq<char>, stem: Seq<char>, ext: Seq<char>)
    requires
        path_file_name(filename) == Some(stem + seq!['.'] + ext),
        !ext.contains('.'),
    ensures
        extensions(filename).len() >= 1,
        extensions(filename).last() == ext,
        extensions(filename).drop_last() == split_on(stem, '.').skip(1),
{
    lemma_split_snoc(stem, ext, '.');
    lemma_split_nonempty(stem, '.');
    assert(extensions(filename).drop_last() =~= split_on(stem, '.').skip(1));
}

/// A file whose last extension names a type is served with that type,
/// entry by entry as `served_types()` lists them, and with no content
/// encoding; `style.css` is `text/css`.
pub proof fn law_type_of_last_extension(filename: Seq<char>, stem: Seq<char>, ext: Seq<char>, k: int)
    requires
        path_file_name(filename) == Some(stem + seq!['.'] + ext),
        !ext.contains('.'),
        0 <= k < served_types().len(),
        ext == served_types()[k].0,
    ensures
        mime_type_of(filename) == served_types()[k].1,
        mime_encoding_of(filename) is None,
{
    lemma_last_extension(filename, stem, ext);
    lemma_served_entry(k);
    let exts = extensions(filename);
    assert(walk_extensions(exts).1 =~= Seq::<Seq<char>>::empty());
}

/// A compression extension after one that names a type (`x.tar.gz`)
/// keeps that type and is served with the compression's encoding, entry
/// by entry as `compressions()` lists them. Whatever comes before it, the
/// encoding begins with the compression's own.
pub proof fn law_compressed_extension(
    filename: Seq<char>,
    stem: Seq<char>,
    ext: Seq<char>,
    comp: Seq<char>,
    j: int,
)
    requires
        path_file_name(filename) == Some(stem + seq!['.'] + ext + seq!['.'] + comp),
        !ext.contains('.'),
        !comp.contains('.'),
        0 <= j < compressions().len(),
        comp == compressions()[j].0,
    ensures
        mime_encoding_of(filename) is Some,
        mime_encoding_of(filename).unwrap().take(compressions()[j].1.len() as int) == compressions()[j].1,
        forall|k: int|
            0 <= k < served_types().len() && ext == #[trigger] served_types()[k].0 ==> mime_type_of(filename)
                == served_types()[k].1 && mime_encoding_of(filename) == Some(compressions()[j].1),
{
    let inner = stem + seq!['.'] + ext;
    assert(stem + seq!['.'] + ext + seq!['.'] + comp == inner + seq!['.'] + comp);
    lemma_last_extension(filename, inner, comp);
    lemma_split_snoc(stem, ext, '.');
    lemma_split_nonempty(stem, '.');
    lemma_compression_entry(j);
    assert forall|k: int| 0 <= k < served_types().len() implies #[trigger] type_of(served_types()[k].0) == Some(served_types()[k].1) by {
        lemma_served_entry(k);
    }
    lemma_key_letters();
    reveal_with_fuel(walk_extensions, 3);
    reveal_with_fuel(join_commas, 2);
    let exts = extensions(filename);
    let rest = split_on(inner, '.').skip(1);
    assert(exts.drop_last() == rest);
    assert(rest.len() >= 1);
    assert(rest.last() == ext);
    assert(rest.drop_last() =~= split_on(stem, '.').skip(1));
    lemma_join_first(walk_extensions(exts).1);
}

/// Joined pieces begin with the first piece.
proof fn lemma_join_first(parts: Seq<Seq<char>>)
    requires
        parts.len() >= 1,
    ensures
        join_commas(parts).take(parts[0].len() as int) == parts[0],
    decreases parts.len(),
{
    if parts.len() > 1 {
        lemma_join_first(parts.drop_last());
        lemma_join_len(parts.drop_last());
        let j = join_commas(parts.drop_last());
        assert((j + ","@ + parts.last()).take(parts[0].len() as int) =~= j.take(parts[0].len() as int));
    } else {
        assert(parts[0].take(parts[0].len() as int) =~= parts[0]);
    }
}

/// Joined pieces are at least as long as the first piece.
proof fn lemma_join_len(parts: Seq<Seq<char>>)
    requires
        parts.len() >= 1,
    ensures
        join_commas(parts).len() >= parts[0].len(),
    decreases parts.len(),
{
    if parts.len() > 1 {
        lemma_join_len(parts.drop_last());
    }
}

} // verus!
