//! Built-in folder templates: preset ignore-rule sets by language or use.

use vstd::prelude::*;
use vstd::string::StringExecFns;

verus! {

/// Slugs of every built-in folder template.
pub const TEMPLATES: [&'static str; 6] = ["rust", "node", "python", "photos", "documents", "office"];

/// Whether two texts are equal.
pub fn str_eq(a: &str, b: &str) -> (res: bool)
    ensures
        res == (a@ == b@),
{
    a.to_owned() == b.to_owned()
}

/// The description shown beside a template, `None` for an unknown slug.
pub open spec fn description_of(slug: Seq<char>) -> Option<Seq<char>> {
    if slug == "rust"@ {
        Some("Rust projects — excludes target/, *.rs.bk, Cargo.lock."@)
    } else if slug == "node"@ {
        Some("Node.js — excludes node_modules/, dist/, build/, .next/, log files."@)
    } else if slug == "python"@ {
        Some("Python — excludes .venv/, __pycache__/, *.pyc, tool caches."@)
    } else if slug == "photos"@ {
        Some("Photos — includes image/video files only."@)
    } else if slug == "documents"@ {
        Some("Documents — includes txt/md/pdf/office/csv."@)
    } else if slug == "office"@ {
        Some("Office — Microsoft / LibreOffice document formats only."@)
    } else {
        None
    }
}

/// The ignore-file patterns of a template, `None` for an unknown slug.
pub open spec fn patterns_of(slug: Seq<char>) -> Option<Seq<char>> {
    if slug == "rust"@ {
        Some("target/\n**/*.rs.bk\nCargo.lock\n"@)
    } else if slug == "node"@ {
        Some(
            "node_modules/\ndist/\nbuild/\n.next/\n.nuxt/\n.turbo/\nnpm-debug.log*\nyarn-debug.log*\nyarn-error.log*\n"@,
        )
    } else if slug == "python"@ {
        Some(
            ".venv/\nvenv/\n__pycache__/\n*.pyc\n*.pyo\n.pytest_cache/\n.mypy_cache/\n.ruff_cache/\n*.egg-info/\n"@,
        )
    } else if slug == "photos"@ {
        Some(
            "# Include only photo/video files — exclude everything else.\n*\n!*.jpg\n!*.jpeg\n!*.png\n!*.gif\n!*.heic\n!*.heif\n!*.webp\n!*.raw\n!*.dng\n!*.mp4\n!*.mov\n!*.m4v\n!*.webm\n"@,
        )
    } else if slug == "documents"@ {
        Some(
            "# Include only document files.\n*\n!*.txt\n!*.md\n!*.rtf\n!*.pdf\n!*.odt\n!*.ods\n!*.odp\n!*.doc\n!*.docx\n!*.xls\n!*.xlsx\n!*.ppt\n!*.pptx\n!*.csv\n"@,
        )
    } else if slug == "office"@ {
        Some(
            "# Include only office-document files.\n*\n!*.doc\n!*.docx\n!*.xls\n!*.xlsx\n!*.ppt\n!*.pptx\n!*.odt\n!*.ods\n!*.odp\n"@,
        )
    } else {
        None
    }
}

/// The human-readable description of a template, shown next to it in the
/// desktop dropdown and in the CLI help; `None` for an unknown slug.
pub fn template_description(slug: &str) -> (res: Option<&'static str>)
    ensures
        match res {
            Some(d) => description_of(slug@) == Some(d@),
            None => description_of(slug@) is None,
        },
{
    if str_eq(slug, "rust") {
        Some("Rust projects — excludes target/, *.rs.bk, Cargo.lock.")
    } else if str_eq(slug, "node") {
        Some("Node.js — excludes node_modules/, dist/, build/, .next/, log files.")
    } else if str_eq(slug, "python") {
        Some("Python — excludes .venv/, __pycache__/, *.pyc, tool caches.")
    } else if str_eq(slug, "photos") {
        Some("Photos — includes image/video files only.")
    } else if str_eq(slug, "documents") {
        Some("Documents — includes txt/md/pdf/office/csv.")
    } else if str_eq(slug, "office") {
        Some("Office — Microsoft / LibreOffice document formats only.")
    } else {
        None
    }
}

/// The ignore-file patterns of a template, one per line; `None` for an
/// unknown slug so callers can report it.
pub fn template_patterns(slug: &str) -> (res: Option<String>)
    ensures
        match res {
            Some(p) => patterns_of(slug@) == Some(p@),
            None => patterns_of(slug@) is None,
        },
{
    let patterns: &str = if str_eq(slug, "rust") {
        "target/\n**/*.rs.bk\nCargo.lock\n"
    } else if str_eq(slug, "node") {
        "node_modules/\ndist/\nbuild/\n.next/\n.nuxt/\n.turbo/\nnpm-debug.log*\nyarn-debug.log*\nyarn-error.log*\n"
    } else if str_eq(slug, "python") {
        ".venv/\nvenv/\n__pycache__/\n*.pyc\n*.pyo\n.pytest_cache/\n.mypy_cache/\n.ruff_cache/\n*.egg-info/\n"
    } else if str_eq(slug, "photos") {
        "# Include only photo/video files — exclude everything else.\n*\n!*.jpg\n!*.jpeg\n!*.png\n!*.gif\n!*.heic\n!*.heif\n!*.webp\n!*.raw\n!*.dng\n!*.mp4\n!*.mov\n!*.m4v\n!*.webm\n"
    } else if str_eq(slug, "documents") {
        "# Include only document files.\n*\n!*.txt\n!*.md\n!*.rtf\n!*.pdf\n!*.odt\n!*.ods\n!*.odp\n!*.doc\n!*.docx\n!*.xls\n!*.xlsx\n!*.ppt\n!*.pptx\n!*.csv\n"
    } else if str_eq(slug, "office") {
        "# Include only office-document files.\n*\n!*.doc\n!*.docx\n!*.xls\n!*.xlsx\n!*.ppt\n!*.pptx\n!*.odt\n!*.ods\n!*.odp\n"
    } else {
        return None;
    };
    Some(patterns.to_owned())
}

/// The slugs of the built-in templates.
pub open spec fn template_slugs() -> Seq<Seq<char>> {
    seq!["rust"@, "node"@, "python"@, "photos"@, "documents"@, "office"@]
}

/// Every built-in template has a description and patterns.
pub proof fn lemma_templates_complete()
    ensures
        forall|i: int|
            0 <= i < template_slugs().len() ==> description_of(#[trigger] template_slugs()[i]) is Some
                && patterns_of(template_slugs()[i]) is Some,
{
}


/// In description `d`, the text from after the space at `i` to the comma
/// at `k` is one word ending in `/`: a directory the description names.
pub open spec fn listed_dir(d: Seq<char>, i: int, k: int) -> bool {
    &&& 0 <= i < k < d.len()
    &&& d[i] == ' '
    &&& d[k] == ','
    &&& d[k - 1] == '/'
    &&& forall|m: int| i < m < k ==> d[m] != ' '
}

/// `l` is a whole line of `p`.
pub open spec fn has_line(p: Seq<char>, l: Seq<char>) -> bool {
    exists|j: int|
        0 <= j && j + l.len() < p.len() && (j == 0 || p[j - 1] == '\n') && #[trigger] p.subrange(j, j + l.len()) == l
            && p[j + l.len()] == '\n'
}


proof fn lemma_dirs_rust(i: int, k: int)
    requires
        listed_dir("Rust projects — excludes target/, *.rs.bk, Cargo.lock."@, i, k),
    ensures
        has_line("target/\n**/*.rs.bk\nCargo.lock\n"@, "Rust projects — excludes target/, *.rs.bk, Cargo.lock."@.subrange(i + 1, k)),
{
    reveal_strlit("Rust projects — excludes target/, *.rs.bk, Cargo.lock.");
    reveal_strlit("target/\n**/*.rs.bk\nCargo.lock\n");
    let d = "Rust projects — excludes target/, *.rs.bk, Cargo.lock."@;
    let p = "target/\n**/*.rs.bk\nCargo.lock\n"@;
    if k == 0 {
        assert(d[0] != ',');
    } else if k == 1 {
        assert(d[1] != ',');
    } else if k == 2 {
        assert(d[2] != ',');
    } else if k == 3 {
        assert(d[3] != ',');
    } else if k == 4 {
        assert(d[4] != ',');
    } else if k == 5 {
        assert(d[5] != ',');
    } else if k == 6 {
        assert(d[6] != ',');
    } else if k == 7 {
        assert(d[7] != ',');
    } else if k == 8 {
        assert(d[8] != ',');
    } else if k == 9 {
        assert(d[9] != ',');
    } else if k == 10 {
        assert(d[10] != ',');
    } else if k == 11 {
        assert(d[11] != ',');
    } else if k == 12 {
        assert(d[12] != ',');
    } else if k == 13 {
        assert(d[13] != ',');
    } else if k == 14 {
        assert(d[14] != ',');
    } else if k == 15 {
        assert(d[15] != ',');
    } else if k == 16 {
        assert(d[16] != ',');
    } else if k == 17 {
        assert(d[17] != ',');
    } else if k == 18 {
        assert(d[18] != ',');
    } else if k == 19 {
        assert(d[19] != ',');
    } else if k == 20 {
        assert(d[20] != ',');
    } else if k == 21 {
        assert(d[21] != ',');
    } else if k == 22 {
        assert(d[22] != ',');
    } else if k == 23 {
        assert(d[23] != ',');
    } else if k == 24 {
        assert(d[24] != ',');
    } else if k == 25 {
        assert(d[25] != ',');
    } else if k == 26 {
        assert(d[26] != ',');
    } else if k == 27 {
        assert(d[27] != ',');
    } else if k == 28 {
        assert(d[28] != ',');
    } else if k == 29 {
        assert(d[29] != ',');
    } else if k == 30 {
        assert(d[30] != ',');
    } else if k == 31 {
        assert(d[31] != ',');
    } else if k == 32 {
        assert(d[24] == ' ');
        if i > 24 {
            if i == 25 { assert(d[25] != ' '); } else if i == 26 { assert(d[26] != ' '); } else if i == 27 { assert(d[27] != ' '); } else if i == 28 { assert(d[28] != ' '); } else if i == 29 { assert(d[29] != ' '); } else if i == 30 { assert(d[30] != ' '); } else if i == 31 { assert(d[31] != ' '); }
        }
        assert(i == 24);
        assert(p.subrange(0, 7) =~= d.subrange(25, 32));
        let l = d.subrange(25, 32);
        assert(l.len() == 7);
        assert(p.subrange(0int, 0int + l.len()) == l);
        assert(p[7] == '\n');
        assert(has_line(p, d.subrange(25, 32)));
    } else if k == 33 {
        assert(d[33] != ',');
    } else if k == 34 {
        assert(d[34] != ',');
    } else if k == 35 {
        assert(d[35] != ',');
    } else if k == 36 {
        assert(d[36] != ',');
    } else if k == 37 {
        assert(d[37] != ',');
    } else if k == 38 {
        assert(d[38] != ',');
    } else if k == 39 {
        assert(d[39] != ',');
    } else if k == 40 {
        assert(d[40] != ',');
    } else if k == 41 {
        assert(d[40] != '/');
    } else if k == 42 {
        assert(d[42] != ',');
    } else if k == 43 {
        assert(d[43] != ',');
    } else if k == 44 {
        assert(d[44] != ',');
    } else if k == 45 {
        assert(d[45] != ',');
    } else if k == 46 {
        assert(d[46] != ',');
    } else if k == 47 {
        assert(d[47] != ',');
    } else if k == 48 {
        assert(d[48] != ',');
    } else if k == 49 {
        assert(d[49] != ',');
    } else if k == 50 {
        assert(d[50] != ',');
    } else if k == 51 {
        assert(d[51] != ',');
    } else if k == 52 {
        assert(d[52] != ',');
    } else if k == 53 {
        assert(d[53] != ',');
    }
}


proof fn lemma_dirs_node(i: int, k: int)
    requires
        listed_dir("Node.js — excludes node_modules/, dist/, build/, .next/, log files."@, i, k),
    ensures
        has_line("node_modules/\ndist/\nbuild/\n.next/\n.nuxt/\n.turbo/\nnpm-debug.log*\nyarn-debug.log*\nyarn-error.log*\n"@, "Node.js — excludes node_modules/, dist/, build/, .next/, log files."@.subrange(i + 1, k)),
{
    reveal_strlit("Node.js — excludes node_modules/, dist/, build/, .next/, log files.");
    reveal_strlit("node_modules/\ndist/\nbuild/\n.next/\n.nuxt/\n.turbo/\nnpm-debug.log*\nyarn-debug.log*\nyarn-error.log*\n");
    let d = "Node.js — excludes node_modules/, dist/, build/, .next/, log files."@;
    let p = "node_modules/\ndist/\nbuild/\n.next/\n.nuxt/\n.turbo/\nnpm-debug.log*\nyarn-debug.log*\nyarn-error.log*\n"@;
    if k == 0 {
        assert(d[0] != ',');
    } else if k == 1 {
        assert(d[1] != ',');
    } else if k == 2 {
        assert(d[2] != ',');
    } else if k == 3 {
        assert(d[3] != ',');
    } else if k == 4 {
        assert(d[4] != ',');
    } else if k == 5 {
        assert(d[5] != ',');
    } else if k == 6 {
        assert(d[6] != ',');
    } else if k == 7 {
        assert(d[7] != ',');
    } else if k == 8 {
        assert(d[8] != ',');
    } else if k == 9 {
        assert(d[9] != ',');
    } else if k == 10 {
        assert(d[10] != ',');
    } else if k == 11 {
        assert(d[11] != ',');
    } else if k == 12 {
        assert(d[12] != ',');
    } else if k == 13 {
        assert(d[13] != ',');
    } else if k == 14 {
        assert(d[14] != ',');
    } else if k == 15 {
        assert(d[15] != ',');
    } else if k == 16 {
        assert(d[16] != ',');
    } else if k == 17 {
        assert(d[17] != ',');
    } else if k == 18 {
        assert(d[18] != ',');
    } else if k == 19 {
        assert(d[19] != ',');
    } else if k == 20 {
        assert(d[20] != ',');
    } else if k == 21 {
        assert(d[21] != ',');
    } else if k == 22 {
        assert(d[22] != ',');
    } else if k == 23 {
        assert(d[23] != ',');
    } else if k == 24 {
        assert(d[24] != ',');
    } else if k == 25 {
        assert(d[25] != ',');
    } else if k == 26 {
        assert(d[26] != ',');
    } else if k == 27 {
        assert(d[27] != ',');
    } else if k == 28 {
        assert(d[28] != ',');
    } else if k == 29 {
        assert(d[29] != ',');
    } else if k == 30 {
        assert(d[30] != ',');
    } else if k == 31 {
        assert(d[31] != ',');
    } else if k == 32 {
        assert(d[18] == ' ');
        if i > 18 {
            if i == 19 { assert(d[19] != ' '); } else if i == 20 { assert(d[20] != ' '); } else if i == 21 { assert(d[21] != ' '); } else if i == 22 { assert(d[22] != ' '); } else if i == 23 { assert(d[23] != ' '); } else if i == 24 { assert(d[24] != ' '); } else if i == 25 { assert(d[25] != ' '); } else if i == 26 { assert(d[26] != ' '); } else if i == 27 { assert(d[27] != ' '); } else if i == 28 { assert(d[28] != ' '); } else if i == 29 { assert(d[29] != ' '); } else if i == 30 { assert(d[30] != ' '); } else if i == 31 { assert(d[31] != ' '); }
        }
        assert(i == 18);
        assert(p.subrange(0, 13) =~= d.subrange(19, 32));
        let l = d.subrange(19, 32);
        assert(l.len() == 13);
        assert(p.subrange(0int, 0int + l.len()) == l);
        assert(p[13] == '\n');
        assert(has_line(p, d.subrange(19, 32)));
    } else if k == 33 {
        assert(d[33] != ',');
    } else if k == 34 {
        assert(d[34] != ',');
    } else if k == 35 {
        assert(d[35] != ',');
    } else if k == 36 {
        assert(d[36] != ',');
    } else if k == 37 {
        assert(d[37] != ',');
    } else if k == 38 {
        assert(d[38] != ',');
    } else if k == 39 {
        assert(d[33] == ' ');
        if i > 33 {
            if i == 34 { assert(d[34] != ' '); } else if i == 35 { assert(d[35] != ' '); } else if i == 36 { assert(d[36] != ' '); } else if i == 37 { assert(d[37] != ' '); } else if i == 38 { assert(d[38] != ' '); }
        }
        assert(i == 33);
        assert(p.subrange(14, 19) =~= d.subrange(34, 39));
        let l = d.subrange(34, 39);
        assert(l.len() == 5);
        assert(p.subrange(14int, 14int + l.len()) == l);
        assert(p[13] == '\n');
        assert(p[19] == '\n');
        assert(has_line(p, d.subrange(34, 39)));
    } else if k == 40 {
        assert(d[40] != ',');
    } else if k == 41 {
        assert(d[41] != ',');
    } else if k == 42 {
        assert(d[42] != ',');
    } else if k == 43 {
        assert(d[43] != ',');
    } else if k == 44 {
        assert(d[44] != ',');
    } else if k == 45 {
        assert(d[45] != ',');
    } else if k == 46 {
        assert(d[46] != ',');
    } else if k == 47 {
        assert(d[40] == ' ');
        if i > 40 {
            if i == 41 { assert(d[41] != ' '); } else if i == 42 { assert(d[42] != ' '); } else if i == 43 { assert(d[43] != ' '); } else if i == 44 { assert(d[44] != ' '); } else if i == 45 { assert(d[45] != ' '); } else if i == 46 { assert(d[46] != ' '); }
        }
        assert(i == 40);
        assert(p.subrange(20, 26) =~= d.subrange(41, 47));
        let l = d.subrange(41, 47);
        assert(l.len() == 6);
        assert(p.subrange(20int, 20int + l.len()) == l);
        assert(p[19] == '\n');
        assert(p[26] == '\n');
        assert(has_line(p, d.subrange(41, 47)));
    } else if k == 48 {
        assert(d[48] != ',');
    } else if k == 49 {
        assert(d[49] != ',');
    } else if k == 50 {
        assert(d[50] != ',');
    } else if k == 51 {
        assert(d[51] != ',');
    } else if k == 52 {
        assert(d[52] != ',');
    } else if k == 53 {
        assert(d[53] != ',');
    } else if k == 54 {
        assert(d[54] != ',');
    } else if k == 55 {
        assert(d[48] == ' ');
        if i > 48 {
            if i == 49 { assert(d[49] != ' '); } else if i == 50 { assert(d[50] != ' '); } else if i == 51 { assert(d[51] != ' '); } else if i == 52 { assert(d[52] != ' '); } else if i == 53 { assert(d[53] != ' '); } else if i == 54 { assert(d[54] != ' '); }
        }
        assert(i == 48);
        assert(p.subrange(27, 33) =~= d.subrange(49, 55));
        let l = d.subrange(49, 55);
        assert(l.len() == 6);
        assert(p.subrange(27int, 27int + l.len()) == l);
        assert(p[26] == '\n');
        assert(p[33] == '\n');
        assert(has_line(p, d.subrange(49, 55)));
    } else if k == 56 {
        assert(d[56] != ',');
    } else if k == 57 {
        assert(d[57] != ',');
    } else if k == 58 {
        assert(d[58] != ',');
    } else if k == 59 {
        assert(d[59] != ',');
    } else if k == 60 {
        assert(d[60] != ',');
    } else if k == 61 {
        assert(d[61] != ',');
    } else if k == 62 {
        assert(d[62] != ',');
    } else if k == 63 {
        assert(d[63] != ',');
    } else if k == 64 {
        assert(d[64] != ',');
    } else if k == 65 {
        assert(d[65] != ',');
    } else if k == 66 {
        assert(d[66] != ',');
    }
}


proof fn lemma_dirs_python(i: int, k: int)
    requires
        listed_dir("Python — excludes .venv/, __pycache__/, *.pyc, tool caches."@, i, k),
    ensures
        has_line(".venv/\nvenv/\n__pycache__/\n*.pyc\n*.pyo\n.pytest_cache/\n.mypy_cache/\n.ruff_cache/\n*.egg-info/\n"@, "Python — excludes .venv/, __pycache__/, *.pyc, tool caches."@.subrange(i + 1, k)),
{
    reveal_strlit("Python — excludes .venv/, __pycache__/, *.pyc, tool caches.");
    reveal_strlit(".venv/\nvenv/\n__pycache__/\n*.pyc\n*.pyo\n.pytest_cache/\n.mypy_cache/\n.ruff_cache/\n*.egg-info/\n");
    let d = "Python — excludes .venv/, __pycache__/, *.pyc, tool caches."@;
    let p = ".venv/\nvenv/\n__pycache__/\n*.pyc\n*.pyo\n.pytest_cache/\n.mypy_cache/\n.ruff_cache/\n*.egg-info/\n"@;
    if k == 0 {
        assert(d[0] != ',');
    } else if k == 1 {
        assert(d[1] != ',');
    } else if k == 2 {
        assert(d[2] != ',');
    } else if k == 3 {
        assert(d[3] != ',');
    } else if k == 4 {
        assert(d[4] != ',');
    } else if k == 5 {
        assert(d[5] != ',');
    } else if k == 6 {
        assert(d[6] != ',');
    } else if k == 7 {
        assert(d[7] != ',');
    } else if k == 8 {
        assert(d[8] != ',');
    } else if k == 9 {
        assert(d[9] != ',');
    } else if k == 10 {
        assert(d[10] != ',');
    } else if k == 11 {
        assert(d[11] != ',');
    } else if k == 12 {
        assert(d[12] != ',');
    } else if k == 13 {
        assert(d[13] != ',');
    } else if k == 14 {
        assert(d[14] != ',');
    } else if k == 15 {
        assert(d[15] != ',');
    } else if k == 16 {
        assert(d[16] != ',');
    } else if k == 17 {
        assert(d[17] != ',');
    } else if k == 18 {
        assert(d[18] != ',');
    } else if k == 19 {
        assert(d[19] != ',');
    } else if k == 20 {
        assert(d[20] != ',');
    } else if k == 21 {
        assert(d[21] != ',');
    } else if k == 22 {
        assert(d[22] != ',');
    } else if k == 23 {
        assert(d[23] != ',');
    } else if k == 24 {
        assert(d[17] == ' ');
        if i > 17 {
            if i == 18 { assert(d[18] != ' '); } else if i == 19 { assert(d[19] != ' '); } else if i == 20 { assert(d[20] != ' '); } else if i == 21 { assert(d[21] != ' '); } else if i == 22 { assert(d[22] != ' '); } else if i == 23 { assert(d[23] != ' '); }
        }
        assert(i == 17);
        assert(p.subrange(0, 6) =~= d.subrange(18, 24));
        let l = d.subrange(18, 24);
        assert(l.len() == 6);
        assert(p.subrange(0int, 0int + l.len()) == l);
        assert(p[6] == '\n');
        assert(has_line(p, d.subrange(18, 24)));
    } else if k == 25 {
        assert(d[25] != ',');
    } else if k == 26 {
        assert(d[26] != ',');
    } else if k == 27 {
        assert(d[27] != ',');
    } else if k == 28 {
        assert(d[28] != ',');
    } else if k == 29 {
        assert(d[29] != ',');
    } else if k == 30 {
        assert(d[30] != ',');
    } else if k == 31 {
        assert(d[31] != ',');
    } else if k == 32 {
        assert(d[32] != ',');
    } else if k == 33 {
        assert(d[33] != ',');
    } else if k == 34 {
        assert(d[34] != ',');
    } else if k == 35 {
        assert(d[35] != ',');
    } else if k == 36 {
        assert(d[36] != ',');
    } else if k == 37 {
        assert(d[37] != ',');
    } else if k == 38 {
        assert(d[25] == ' ');
        if i > 25 {
            if i == 26 { assert(d[26] != ' '); } else if i == 27 { assert(d[27] != ' '); } else if i == 28 { assert(d[28] != ' '); } else if i == 29 { assert(d[29] != ' '); } else if i == 30 { assert(d[30] != ' '); } else if i == 31 { assert(d[31] != ' '); } else if i == 32 { assert(d[32] != ' '); } else if i == 33 { assert(d[33] != ' '); } else if i == 34 { assert(d[34] != ' '); } else if i == 35 { assert(d[35] != ' '); } else if i == 36 { assert(d[36] != ' '); } else if i == 37 { assert(d[37] != ' '); }
        }
        assert(i == 25);
        assert(p.subrange(13, 25) =~= d.subrange(26, 38));
        let l = d.subrange(26, 38);
        assert(l.len() == 12);
        assert(p.subrange(13int, 13int + l.len()) == l);
        assert(p[12] == '\n');
        assert(p[25] == '\n');
        assert(has_line(p, d.subrange(26, 38)));
    } else if k == 39 {
        assert(d[39] != ',');
    } else if k == 40 {
        assert(d[40] != ',');
    } else if k == 41 {
        assert(d[41] != ',');
    } else if k == 42 {
        assert(d[42] != ',');
    } else if k == 43 {
        assert(d[43] != ',');
    } else if k == 44 {
        assert(d[44] != ',');
    } else if k == 45 {
        assert(d[44] != '/');
    } else if k == 46 {
        assert(d[46] != ',');
    } else if k == 47 {
        assert(d[47] != ',');
    } else if k == 48 {
        assert(d[48] != ',');
    } else if k == 49 {
        assert(d[49] != ',');
    } else if k == 50 {
        assert(d[50] != ',');
    } else if k == 51 {
        assert(d[51] != ',');
    } else if k == 52 {
        assert(d[52] != ',');
    } else if k == 53 {
        assert(d[53] != ',');
    } else if k == 54 {
        assert(d[54] != ',');
    } else if k == 55 {
        assert(d[55] != ',');
    } else if k == 56 {
        assert(d[56] != ',');
    } else if k == 57 {
        assert(d[57] != ',');
    } else if k == 58 {
        assert(d[58] != ',');
    }
}


proof fn lemma_dirs_photos(i: int, k: int)
    requires
        listed_dir("Photos — includes image/video files only."@, i, k),
    ensures
        has_line("# Include only photo/video files — exclude everything else.\n*\n!*.jpg\n!*.jpeg\n!*.png\n!*.gif\n!*.heic\n!*.heif\n!*.webp\n!*.raw\n!*.dng\n!*.mp4\n!*.mov\n!*.m4v\n!*.webm\n"@, "Photos — includes image/video files only."@.subrange(i + 1, k)),
{
    reveal_strlit("Photos — includes image/video files only.");
    reveal_strlit("# Include only photo/video files — exclude everything else.\n*\n!*.jpg\n!*.jpeg\n!*.png\n!*.gif\n!*.heic\n!*.heif\n!*.webp\n!*.raw\n!*.dng\n!*.mp4\n!*.mov\n!*.m4v\n!*.webm\n");
    let d = "Photos — includes image/video files only."@;
    let p = "# Include only photo/video files — exclude everything else.\n*\n!*.jpg\n!*.jpeg\n!*.png\n!*.gif\n!*.heic\n!*.heif\n!*.webp\n!*.raw\n!*.dng\n!*.mp4\n!*.mov\n!*.m4v\n!*.webm\n"@;
    if k == 0 {
        assert(d[0] != ',');
    } else if k == 1 {
        assert(d[1] != ',');
    } else if k == 2 {
        assert(d[2] != ',');
    } else if k == 3 {
        assert(d[3] != ',');
    } else if k == 4 {
        assert(d[4] != ',');
    } else if k == 5 {
        assert(d[5] != ',');
    } else if k == 6 {
        assert(d[6] != ',');
    } else if k == 7 {
        assert(d[7] != ',');
    } else if k == 8 {
        assert(d[8] != ',');
    } else if k == 9 {
        assert(d[9] != ',');
    } else if k == 10 {
        assert(d[10] != ',');
    } else if k == 11 {
        assert(d[11] != ',');
    } else if k == 12 {
        assert(d[12] != ',');
    } else if k == 13 {
        assert(d[13] != ',');
    } else if k == 14 {
        assert(d[14] != ',');
    } else if k == 15 {
        assert(d[15] != ',');
    } else if k == 16 {
        assert(d[16] != ',');
    } else if k == 17 {
        assert(d[17] != ',');
    } else if k == 18 {
        assert(d[18] != ',');
    } else if k == 19 {
        assert(d[19] != ',');
    } else if k == 20 {
        assert(d[20] != ',');
    } else if k == 21 {
        assert(d[21] != ',');
    } else if k == 22 {
        assert(d[22] != ',');
    } else if k == 23 {
        assert(d[23] != ',');
    } else if k == 24 {
        assert(d[24] != ',');
    } else if k == 25 {
        assert(d[25] != ',');
    } else if k == 26 {
        assert(d[26] != ',');
    } else if k == 27 {
        assert(d[27] != ',');
    } else if k == 28 {
        assert(d[28] != ',');
    } else if k == 29 {
        assert(d[29] != ',');
    } else if k == 30 {
        assert(d[30] != ',');
    } else if k == 31 {
        assert(d[31] != ',');
    } else if k == 32 {
        assert(d[32] != ',');
    } else if k == 33 {
        assert(d[33] != ',');
    } else if k == 34 {
        assert(d[34] != ',');
    } else if k == 35 {
        assert(d[35] != ',');
    } else if k == 36 {
        assert(d[36] != ',');
    } else if k == 37 {
        assert(d[37] != ',');
    } else if k == 38 {
        assert(d[38] != ',');
    } else if k == 39 {
        assert(d[39] != ',');
    } else if k == 40 {
        assert(d[40] != ',');
    }
}


proof fn lemma_dirs_documents(i: int, k: int)
    requires
        listed_dir("Documents — includes txt/md/pdf/office/csv."@, i, k),
    ensures
        has_line("# Include only document files.\n*\n!*.txt\n!*.md\n!*.rtf\n!*.pdf\n!*.odt\n!*.ods\n!*.odp\n!*.doc\n!*.docx\n!*.xls\n!*.xlsx\n!*.ppt\n!*.pptx\n!*.csv\n"@, "Documents — includes txt/md/pdf/office/csv."@.subrange(i + 1, k)),
{
    reveal_strlit("Documents — includes txt/md/pdf/office/csv.");
    reveal_strlit("# Include only document files.\n*\n!*.txt\n!*.md\n!*.rtf\n!*.pdf\n!*.odt\n!*.ods\n!*.odp\n!*.doc\n!*.docx\n!*.xls\n!*.xlsx\n!*.ppt\n!*.pptx\n!*.csv\n");
    let d = "Documents — includes txt/md/pdf/office/csv."@;
    let p = "# Include only document files.\n*\n!*.txt\n!*.md\n!*.rtf\n!*.pdf\n!*.odt\n!*.ods\n!*.odp\n!*.doc\n!*.docx\n!*.xls\n!*.xlsx\n!*.ppt\n!*.pptx\n!*.csv\n"@;
    if k == 0 {
        assert(d[0] != ',');
    } else if k == 1 {
        assert(d[1] != ',');
    } else if k == 2 {
        assert(d[2] != ',');
    } else if k == 3 {
        assert(d[3] != ',');
    } else if k == 4 {
        assert(d[4] != ',');
    } else if k == 5 {
        assert(d[5] != ',');
    } else if k == 6 {
        assert(d[6] != ',');
    } else if k == 7 {
        assert(d[7] != ',');
    } else if k == 8 {
        assert(d[8] != ',');
    } else if k == 9 {
        assert(d[9] != ',');
    } else if k == 10 {
        assert(d[10] != ',');
    } else if k == 11 {
        assert(d[11] != ',');
    } else if k == 12 {
        assert(d[12] != ',');
    } else if k == 13 {
        assert(d[13] != ',');
    } else if k == 14 {
        assert(d[14] != ',');
    } else if k == 15 {
        assert(d[15] != ',');
    } else if k == 16 {
        assert(d[16] != ',');
    } else if k == 17 {
        assert(d[17] != ',');
    } else if k == 18 {
        assert(d[18] != ',');
    } else if k == 19 {
        assert(d[19] != ',');
    } else if k == 20 {
        assert(d[20] != ',');
    } else if k == 21 {
        assert(d[21] != ',');
    } else if k == 22 {
        assert(d[22] != ',');
    } else if k == 23 {
        assert(d[23] != ',');
    } else if k == 24 {
        assert(d[24] != ',');
    } else if k == 25 {
        assert(d[25] != ',');
    } else if k == 26 {
        assert(d[26] != ',');
    } else if k == 27 {
        assert(d[27] != ',');
    } else if k == 28 {
        assert(d[28] != ',');
    } else if k == 29 {
        assert(d[29] != ',');
    } else if k == 30 {
        assert(d[30] != ',');
    } else if k == 31 {
        assert(d[31] != ',');
    } else if k == 32 {
        assert(d[32] != ',');
    } else if k == 33 {
        assert(d[33] != ',');
    } else if k == 34 {
        assert(d[34] != ',');
    } else if k == 35 {
        assert(d[35] != ',');
    } else if k == 36 {
        assert(d[36] != ',');
    } else if k == 37 {
        assert(d[37] != ',');
    } else if k == 38 {
        assert(d[38] != ',');
    } else if k == 39 {
        assert(d[39] != ',');
    } else if k == 40 {
        assert(d[40] != ',');
    } else if k == 41 {
        assert(d[41] != ',');
    } else if k == 42 {
        assert(d[42] != ',');
    }
}


proof fn lemma_dirs_office(i: int, k: int)
    requires
        listed_dir("Office — Microsoft / LibreOffice document formats only."@, i, k),
    ensures
        has_line("# Include only office-document files.\n*\n!*.doc\n!*.docx\n!*.xls\n!*.xlsx\n!*.ppt\n!*.pptx\n!*.odt\n!*.ods\n!*.odp\n"@, "Office — Microsoft / LibreOffice document formats only."@.subrange(i + 1, k)),
{
    reveal_strlit("Office — Microsoft / LibreOffice document formats only.");
    reveal_strlit("# Include only office-document files.\n*\n!*.doc\n!*.docx\n!*.xls\n!*.xlsx\n!*.ppt\n!*.pptx\n!*.odt\n!*.ods\n!*.odp\n");
    let d = "Office — Microsoft / LibreOffice document formats only."@;
    let p = "# Include only office-document files.\n*\n!*.doc\n!*.docx\n!*.xls\n!*.xlsx\n!*.ppt\n!*.pptx\n!*.odt\n!*.ods\n!*.odp\n"@;
    if k == 0 {
        assert(d[0] != ',');
    } else if k == 1 {
        assert(d[1] != ',');
    } else if k == 2 {
        assert(d[2] != ',');
    } else if k == 3 {
        assert(d[3] != ',');
    } else if k == 4 {
        assert(d[4] != ',');
    } else if k == 5 {
        assert(d[5] != ',');
    } else if k == 6 {
        assert(d[6] != ',');
    } else if k == 7 {
        assert(d[7] != ',');
    } else if k == 8 {
        assert(d[8] != ',');
    } else if k == 9 {
        assert(d[9] != ',');
    } else if k == 10 {
        assert(d[10] != ',');
    } else if k == 11 {
        assert(d[11] != ',');
    } else if k == 12 {
        assert(d[12] != ',');
    } else if k == 13 {
        assert(d[13] != ',');
    } else if k == 14 {
        assert(d[14] != ',');
    } else if k == 15 {
        assert(d[15] != ',');
    } else if k == 16 {
        assert(d[16] != ',');
    } else if k == 17 {
        assert(d[17] != ',');
    } else if k == 18 {
        assert(d[18] != ',');
    } else if k == 19 {
        assert(d[19] != ',');
    } else if k == 20 {
        assert(d[20] != ',');
    } else if k == 21 {
        assert(d[21] != ',');
    } else if k == 22 {
        assert(d[22] != ',');
    } else if k == 23 {
        assert(d[23] != ',');
    } else if k == 24 {
        assert(d[24] != ',');
    } else if k == 25 {
        assert(d[25] != ',');
    } else if k == 26 {
        assert(d[26] != ',');
    } else if k == 27 {
        assert(d[27] != ',');
    } else if k == 28 {
        assert(d[28] != ',');
    } else if k == 29 {
        assert(d[29] != ',');
    } else if k == 30 {
        assert(d[30] != ',');
    } else if k == 31 {
        assert(d[31] != ',');
    } else if k == 32 {
        assert(d[32] != ',');
    } else if k == 33 {
        assert(d[33] != ',');
    } else if k == 34 {
        assert(d[34] != ',');
    } else if k == 35 {
        assert(d[35] != ',');
    } else if k == 36 {
        assert(d[36] != ',');
    } else if k == 37 {
        assert(d[37] != ',');
    } else if k == 38 {
        assert(d[38] != ',');
    } else if k == 39 {
        assert(d[39] != ',');
    } else if k == 40 {
        assert(d[40] != ',');
    } else if k == 41 {
        assert(d[41] != ',');
    } else if k == 42 {
        assert(d[42] != ',');
    } else if k == 43 {
        assert(d[43] != ',');
    } else if k == 44 {
        assert(d[44] != ',');
    } else if k == 45 {
        assert(d[45] != ',');
    } else if k == 46 {
        assert(d[46] != ',');
    } else if k == 47 {
        assert(d[47] != ',');
    } else if k == 48 {
        assert(d[48] != ',');
    } else if k == 49 {
        assert(d[49] != ',');
    } else if k == 50 {
        assert(d[50] != ',');
    } else if k == 51 {
        assert(d[51] != ',');
    } else if k == 52 {
        assert(d[52] != ',');
    } else if k == 53 {
        assert(d[53] != ',');
    } else if k == 54 {
        assert(d[54] != ',');
    }
}


/// Every directory a template's description names in its list (a word
/// ending in `/` before a comma) is a whole line of the template's
/// patterns, so the folder ignores it.
pub proof fn lemma_described_dirs_ignored(slug: Seq<char>, i: int, k: int)
    requires
        description_of(slug) is Some,
        listed_dir(description_of(slug).unwrap(), i, k),
    ensures
        patterns_of(slug) is Some,
        has_line(patterns_of(slug).unwrap(), description_of(slug).unwrap().subrange(i + 1, k)),
{
    reveal_strlit("rust");
    reveal_strlit("node");
    reveal_strlit("python");
    reveal_strlit("photos");
    reveal_strlit("documents");
    reveal_strlit("office");
    if slug == "rust"@ {
        lemma_dirs_rust(i, k);
    } else if slug == "node"@ {
        lemma_dirs_node(i, k);
    } else if slug == "python"@ {
        lemma_dirs_python(i, k);
    } else if slug == "photos"@ {
        lemma_dirs_photos(i, k);
    } else if slug == "documents"@ {
        lemma_dirs_documents(i, k);
    } else if slug == "office"@ {
        lemma_dirs_office(i, k);
    }
}

} // verus!
