//! Icon lookup for a window class: which desktop entries to read, what icon
//! name a desktop entry gives, and which icon files to try, in order. Reading
//! the files and caching the answers is the caller's part.
use vstd::prelude::*;

use crate::filter::{lowercase, unicode_lowercase};
use crate::search::{lemma_map_values_push, lemma_take_push};

verus! {

broadcast use vstd::string::group_string_axioms;

/// The first text followed by the second.
fn concat(a: &str, b: &str) -> (s: String)
    ensures
        s@ == a@ + b@,
{
    let mut s = String::from_str(a);
    s.append(b);
    s
}

/// `s` with every occurrence of `from`, scanned left to right without
/// overlaps, replaced by `to`.
pub open spec fn replaced(s: Seq<char>, from: Seq<char>, to: Seq<char>) -> Seq<char>
    decreases s.len(),
{
    if from.len() == 0 || s.len() < from.len() {
        s
    } else if s.take(from.len() as int) == from {
        to + replaced(s.skip(from.len() as int), from, to)
    } else {
        seq![s[0]] + replaced(s.skip(1), from, to)
    }
}

/// `s` with every non-overlapping occurrence of the non-empty `from`, found
/// from the left, replaced by `to`.
fn replace_text(s: &str, from: &str, to: &str) -> (r: String)
    requires
        from@.len() > 0,
    ensures
        r@ == replaced(s@, from@, to@),
{
    let n = s.unicode_len();
    let k = from.unicode_len();
    let pattern = from.to_owned();
    let mut r = String::new();
    let mut i: usize = 0;
    proof {
        assert(s@.skip(0) =~= s@);
        assert(r@ + replaced(s@, from@, to@) =~= replaced(s@, from@, to@));
    }
    while i < n
        invariant
            i <= n,
            n == s@.len(),
            k == from@.len(),
            k > 0,
            pattern@ == from@,
            r@ + replaced(s@.skip(i as int), from@, to@) == replaced(s@, from@, to@),
        decreases n - i,
    {
        let ghost rest = s@.skip(i as int);
        if n - i < k {
            r.append(s.substring_char(i, n));
            proof {
                assert(s@.subrange(i as int, n as int) =~= rest);
            }
            i = n;
        } else {
            let window = s.substring_char(i, i + k).to_owned();
            proof {
                assert(rest.take(k as int) =~= s@.subrange(i as int, (i + k) as int));
                assert(rest.skip(k as int) =~= s@.skip((i + k) as int));
                assert(rest.skip(1) =~= s@.skip(i + 1));
                assert(s@.subrange(i as int, i + 1) =~= seq![rest[0]]);
            }
            if window == pattern {
                r.append(to);
                i = i + k;
            } else {
                r.append(s.substring_char(i, i + 1));
                i = i + 1;
            }
        }
    }
    proof {
        assert(s@.skip(n as int) =~= Seq::<char>::empty());
        assert(r@ + Seq::<char>::empty() =~= r@);
    }
    r
}

pub open spec fn desktop_suffix() -> Seq<char> {
    seq!['.', 'd', 'e', 's', 'k', 't', 'o', 'p']
}

pub open spec fn gnome_prefix() -> Seq<char> {
    seq!['o', 'r', 'g', '.', 'g', 'n', 'o', 'm', 'e', '.']
}

pub open spec fn gnome_dash() -> Seq<char> {
    seq!['G', 'n', 'o', 'm', 'e', '-']
}

pub open spec fn gnome_dash_lower() -> Seq<char> {
    seq!['g', 'n', 'o', 'm', 'e', '-']
}

/// The desktop entry names tried for a window class, in order: the class in
/// lower case, the class itself, and the class without its "Gnome-" or
/// "gnome-" parts under "org.gnome.", each with ".desktop" appended.
pub open spec fn desktop_names_of(wm_class: Seq<char>) -> Seq<Seq<char>> {
    seq![
        unicode_lowercase(wm_class) + desktop_suffix(),
        wm_class + desktop_suffix(),
        gnome_prefix() + replaced(replaced(wm_class, gnome_dash(), seq![]), gnome_dash_lower(), seq![])
            + desktop_suffix(),
    ]
}

pub fn desktop_file_names(wm_class: &str) -> (names: Vec<String>)
    ensures
        names@.len() == 3,
        forall|k: int| 0 <= k < 3 ==> #[trigger] names@[k]@ == desktop_names_of(wm_class@)[k],
{
    proof {
        reveal_strlit(".desktop");
        reveal_strlit("Gnome-");
        reveal_strlit("gnome-");
        reveal_strlit("org.gnome.");
        reveal_strlit("");
    }
    let suffix = ".desktop";
    let lower = lowercase(wm_class);
    let first = concat(lower.as_str(), suffix);
    let second = concat(wm_class, suffix);
    let no_upper = replace_text(wm_class, "Gnome-", "");
    let no_gnome = replace_text(no_upper.as_str(), "gnome-", "");
    let prefixed = concat("org.gnome.", no_gnome.as_str());
    let third = concat(prefixed.as_str(), suffix);
    proof {
        assert(suffix@ =~= desktop_suffix());
        assert("Gnome-"@ =~= gnome_dash());
        assert("gnome-"@ =~= gnome_dash_lower());
        assert("org.gnome."@ =~= gnome_prefix());
        assert(""@ =~= Seq::<char>::empty());
    }
    let names = vec![first, second, third];
    names
}

/// The icon name used when no desktop entry names one: the class in lower case.
pub fn fallback_icon_name(wm_class: &str) -> (name: String)
    ensures
        name@ == unicode_lowercase(wm_class@),
{
    lowercase(wm_class)
}

/// The characters `str::trim` strips: those with the Unicode White_Space
/// property, as `char::is_whitespace` documents.
pub open spec fn is_space(c: char) -> bool {
    ||| '\u{9}' <= c <= '\u{d}'
    ||| c == ' '
    ||| c == '\u{85}'
    ||| c == '\u{a0}'
    ||| c == '\u{1680}'
    ||| '\u{2000}' <= c <= '\u{200a}'
    ||| c == '\u{2028}'
    ||| c == '\u{2029}'
    ||| c == '\u{202f}'
    ||| c == '\u{205f}'
    ||| c == '\u{3000}'
}

fn space(c: char) -> (b: bool)
    ensures
        b == is_space(c),
{
    ('\u{9}' <= c && c <= '\u{d}') || c == ' ' || c == '\u{85}' || c == '\u{a0}' || c == '\u{1680}'
        || ('\u{2000}' <= c && c <= '\u{200a}') || c == '\u{2028}' || c == '\u{2029}' || c == '\u{202f}'
        || c == '\u{205f}' || c == '\u{3000}'
}

pub open spec fn strip_lead(s: Seq<char>) -> Seq<char>
    decreases s.len(),
{
    if s.len() > 0 && is_space(s[0]) {
        strip_lead(s.skip(1))
    } else {
        s
    }
}

pub open spec fn strip_trail(s: Seq<char>) -> Seq<char>
    decreases s.len(),
{
    if s.len() > 0 && is_space(s.last()) {
        strip_trail(s.drop_last())
    } else {
        s
    }
}

/// `s` without leading and trailing white space, as `str::trim` gives it.
pub open spec fn trimmed(s: Seq<char>) -> Seq<char> {
    strip_trail(strip_lead(s))
}

/// The pieces of `s` between line feeds (a carriage return before a line
/// feed stays in its piece; trimming removes it).
pub open spec fn split_lines(s: Seq<char>) -> Seq<Seq<char>>
    decreases s.len(),
{
    if s.len() == 0 {
        seq![seq![]]
    } else {
        let prev = split_lines(s.drop_last());
        if s.last() == '\n' {
            prev.push(seq![])
        } else {
            prev.update(prev.len() - 1, prev.last().push(s.last()))
        }
    }
}

pub open spec fn icon_key() -> Seq<char> {
    seq!['I', 'c', 'o', 'n', '=']
}

/// The icon a desktop-entry line names: the line, trimmed, starts with
/// "Icon=" and what follows, trimmed, is not empty.
pub open spec fn icon_of_line(line: Seq<char>) -> Option<Seq<char>> {
    let t = trimmed(line);
    if t.len() >= 5 && t.take(5) == icon_key() {
        let v = trimmed(t.skip(5));
        if v.len() > 0 {
            Some(v)
        } else {
            None
        }
    } else {
        None
    }
}

/// The icon named by the first line of a desktop entry that names one.
pub open spec fn icon_of_lines(lines: Seq<Seq<char>>) -> Option<Seq<char>>
    decreases lines.len(),
{
    if lines.len() == 0 {
        None
    } else {
        match icon_of_lines(lines.drop_last()) {
            Some(v) => Some(v),
            None => icon_of_line(lines.last()),
        }
    }
}

pub open spec fn desktop_icon_of(content: Seq<char>) -> Option<Seq<char>> {
    icon_of_lines(split_lines(content))
}

proof fn lemma_strip_lead_step(s: Seq<char>, a: int)
    requires
        0 <= a < s.len(),
        is_space(s[a]),
    ensures
        strip_lead(s.skip(a)) == strip_lead(s.skip(a + 1)),
{
    assert(s.skip(a)[0] == s[a]);
    assert(s.skip(a).skip(1) =~= s.skip(a + 1));
}

proof fn lemma_strip_trail_step(s: Seq<char>, b: int)
    requires
        0 < b <= s.len(),
        is_space(s[b - 1]),
    ensures
        strip_trail(s.take(b)) == strip_trail(s.take(b - 1)),
{
    assert(s.take(b).last() == s[b - 1]);
    assert(s.take(b).drop_last() =~= s.take(b - 1));
}

/// The trimmed range of `s` within `[from, to)`: bounds `(a, b)` with
/// `trimmed(s[from..to]) == s[a..b]`.
fn trim_range(s: &str, from: usize, to: usize) -> (r: (usize, usize))
    requires
        from <= to <= s@.len(),
    ensures
        from <= r.0 <= r.1 <= to,
        trimmed(s@.subrange(from as int, to as int)) == s@.subrange(r.0 as int, r.1 as int),
{
    let ghost line = s@.subrange(from as int, to as int);
    proof {
        assert(line.skip(0) =~= line);
    }
    let mut a = from;
    while a < to && space(s.get_char(a))
        invariant
            from <= a <= to,
            to <= s@.len(),
            line == s@.subrange(from as int, to as int),
            strip_lead(line) == strip_lead(line.skip(a - from)),
        decreases to - a,
    {
        proof {
            assert(line[a - from] == s@[a as int]);
            lemma_strip_lead_step(line, a - from);
        }
        a = a + 1;
    }
    let ghost rest = line.skip(a - from);
    proof {
        if a < to {
            assert(rest[0] == s@[a as int]);
        }
        assert(strip_lead(rest) == rest);
        assert(rest =~= s@.subrange(a as int, to as int));
    }
    proof {
        assert(rest.take(to - a) =~= rest);
    }
    let mut b = to;
    while b > a && space(s.get_char(b - 1))
        invariant
            from <= a <= b <= to,
            to <= s@.len(),
            rest == s@.subrange(a as int, to as int),
            strip_trail(rest) == strip_trail(rest.take(b - a)),
        decreases b - a,
    {
        proof {
            assert(rest[b - 1 - a] == s@[b - 1]);
            lemma_strip_trail_step(rest, b - a);
        }
        b = b - 1;
    }
    proof {
        let t = rest.take(b - a);
        if b > a {
            assert(t.last() == s@[b - 1]);
        }
        assert(strip_trail(t) == t);
        assert(t =~= s@.subrange(a as int, b as int));
    }
    (a, b)
}

/// The icon of the line `s[from..to]`, as bounds in `s`.
fn line_icon(s: &str, from: usize, to: usize) -> (r: Option<(usize, usize)>)
    requires
        from <= to <= s@.len(),
    ensures
        match r {
            Some((a, b)) => a <= b <= s@.len() && icon_of_line(s@.subrange(from as int, to as int)) == Some(
                s@.subrange(a as int, b as int),
            ),
            None => icon_of_line(s@.subrange(from as int, to as int)) is None,
        },
{
    let (a, b) = trim_range(s, from, to);
    let ghost t = s@.subrange(a as int, b as int);
    if b - a < 5 {
        return None;
    }
    let is_key = s.get_char(a) == 'I' && s.get_char(a + 1) == 'c' && s.get_char(a + 2) == 'o'
        && s.get_char(a + 3) == 'n' && s.get_char(a + 4) == '=';
    proof {
        if t.take(5) == icon_key() {
            assert(t.take(5)[0] == t[0] && t[0] == s@[a as int]);
            assert(t.take(5)[1] == t[1] && t[1] == s@[a + 1]);
            assert(t.take(5)[2] == t[2] && t[2] == s@[a + 2]);
            assert(t.take(5)[3] == t[3] && t[3] == s@[a + 3]);
            assert(t.take(5)[4] == t[4] && t[4] == s@[a + 4]);
        }
        if is_key {
            assert(t.take(5) =~= icon_key());
        }
    }
    if !is_key {
        return None;
    }
    let (va, vb) = trim_range(s, a + 5, b);
    proof {
        assert(t.skip(5) =~= s@.subrange(a + 5, b as int));
    }
    if va == vb {
        return None;
    }
    Some((va, vb))
}

/// Parse the `Icon=` value out of the contents of a desktop entry.
pub fn desktop_icon(content: &str) -> (icon: Option<String>)
    ensures
        match icon {
            Some(v) => desktop_icon_of(content@) == Some(v@),
            None => desktop_icon_of(content@) is None,
        },
{
    let n = content.unicode_len();
    let ghost c = content@;
    let mut start: usize = 0;
    let mut i: usize = 0;
    while i < n
        invariant
            start <= i <= n,
            n == c.len(),
            c == content@,
            split_lines(c.take(i as int)).len() >= 1,
            split_lines(c.take(i as int)).last() == c.subrange(start as int, i as int),
            icon_of_lines(split_lines(c.take(i as int)).drop_last()) is None,
        decreases n - i,
    {
        let ch = content.get_char(i);
        let ghost prev = split_lines(c.take(i as int));
        proof {
            assert(c.take(i + 1).drop_last() =~= c.take(i as int));
            assert(c.take(i + 1).last() == ch);
        }
        if ch == '\n' {
            match line_icon(content, start, i) {
                Some((a, b)) => {
                    proof {
                        assert(prev =~= prev.drop_last().push(prev.last()));
                        assert(icon_of_lines(prev) == Some(c.subrange(a as int, b as int)));
                        assert(split_lines(c.take(i + 1)) == prev.push(seq![]));
                        assert(prev.push(seq![]).drop_last() =~= prev);
                        lemma_closed_icon_persists(c, i + 1, c.subrange(a as int, b as int));
                    }
                    return Some(content.substring_char(a, b).to_owned());
                },
                None => {},
            }
            proof {
                assert(split_lines(c.take(i + 1)) == prev.push(seq![]));
                assert(prev.push(seq![]).drop_last() =~= prev);
                assert(prev =~= prev.drop_last().push(prev.last()));
                assert(icon_of_lines(prev) is None);
                assert(c.subrange(i + 1, i + 1) =~= Seq::<char>::empty());
            }
            start = i + 1;
        } else {
            proof {
                let next = prev.update(prev.len() - 1, prev.last().push(ch));
                assert(split_lines(c.take(i + 1)) == next);
                assert(next.drop_last() =~= prev.drop_last());
                assert(next.last() =~= c.subrange(start as int, i + 1));
            }
        }
        i = i + 1;
    }
    proof {
        assert(c.take(n as int) =~= c);
    }
    let ghost lines = split_lines(c);
    match line_icon(content, start, n) {
        Some((a, b)) => {
            proof {
                assert(lines =~= lines.drop_last().push(lines.last()));
            }
            Some(content.substring_char(a, b).to_owned())
        },
        None => {
            proof {
                assert(lines =~= lines.drop_last().push(lines.last()));
            }
            None
        },
    }
}

proof fn lemma_split_lines_nonempty(s: Seq<char>)
    ensures
        split_lines(s).len() >= 1,
    decreases s.len(),
{
    if s.len() > 0 {
        lemma_split_lines_nonempty(s.drop_last());
    }
}

/// Once a finished line names an icon, later text does not change the answer.
proof fn lemma_closed_icon_persists(c: Seq<char>, j: int, v: Seq<char>)
    requires
        0 <= j <= c.len(),
        icon_of_lines(split_lines(c.take(j)).drop_last()) == Some(v),
    ensures
        icon_of_lines(split_lines(c)) == Some(v),
    decreases c.len() - j,
{
    if j == c.len() {
        assert(c.take(j) =~= c);
        lemma_split_lines_nonempty(c);
    } else {
        let prev = split_lines(c.take(j));
        lemma_split_lines_nonempty(c.take(j));
        assert(c.take(j + 1).drop_last() =~= c.take(j));
        let next = split_lines(c.take(j + 1));
        if c[j] == '\n' {
            assert(next == prev.push(seq![]));
            assert(next.drop_last() =~= prev);
            assert(prev =~= prev.drop_last().push(prev.last()));
        } else {
            assert(next == prev.update(prev.len() - 1, prev.last().push(c[j])));
            assert(next.drop_last() =~= prev.drop_last());
        }
        lemma_closed_icon_persists(c, j + 1, v);
    }
}

// ── Icon files ──

pub open spec fn icon_sizes() -> Seq<Seq<char>> {
    seq!["48x48"@, "scalable"@, "256x256"@, "128x128"@, "64x64"@, "32x32"@, "24x24"@, "16x16"@]
}

pub open spec fn icon_categories() -> Seq<Seq<char>> {
    seq!["apps"@, "categories"@, "mimetypes"@]
}

pub open spec fn icon_extensions() -> Seq<Seq<char>> {
    seq!["png"@, "svg"@]
}

pub open spec fn icon_themes() -> Seq<Seq<char>> {
    seq!["/usr/share/icons/hicolor"@, "/usr/share/icons/Adwaita"@, "/usr/share/pixmaps"@]
}

pub open spec fn pixmaps_dir() -> Seq<char> {
    "/usr/share/pixmaps"@
}

/// `dir/name.ext`.
pub open spec fn flat_path(dir: Seq<char>, name: Seq<char>, ext: Seq<char>) -> Seq<char> {
    dir + seq!['/'] + name + seq!['.'] + ext
}

/// `theme/size/category/name.ext`.
pub open spec fn themed_path(theme: Seq<char>, size: Seq<char>, category: Seq<char>, name: Seq<char>, ext: Seq<char>) -> Seq<char> {
    theme + seq!['/'] + size + seq!['/'] + category + seq!['/'] + name + seq!['.'] + ext
}

/// The themed paths tried for an icon, themes outermost, then sizes, then
/// categories, then extensions.
pub open spec fn themed_paths(name: Seq<char>) -> Seq<Seq<char>> {
    Seq::new(
        144,
        |k: int|
            themed_path(
                icon_themes()[k / 48],
                icon_sizes()[(k / 6) % 8],
                icon_categories()[(k / 2) % 3],
                name,
                icon_extensions()[k % 2],
            ),
    )
}

/// The files tried for an icon name, in order: the name itself when it is an
/// absolute path, then the flat pixmaps directory with each extension, then
/// the themed directories.
pub open spec fn icon_paths_of(name: Seq<char>) -> Seq<Seq<char>> {
    (if name.len() > 0 && name[0] == '/' {
        seq![name]
    } else {
        seq![]
    }) + icon_extensions().map_values(|ext: Seq<char>| flat_path(pixmaps_dir(), name, ext)) + themed_paths(name)
}

/// `dir/name.ext`.
fn flat_file(dir: &str, name: &str, ext: &str) -> (p: String)
    ensures
        p@ == flat_path(dir@, name@, ext@),
{
    proof {
        reveal_strlit("/");
        reveal_strlit(".");
    }
    let mut p = String::from_str(dir);
    p.append("/");
    p.append(name);
    p.append(".");
    p.append(ext);
    proof {
        assert(p@ =~= flat_path(dir@, name@, ext@));
    }
    p
}

/// `theme/size/category/name.ext`.
fn themed_file(theme: &str, size: &str, category: &str, name: &str, ext: &str) -> (p: String)
    ensures
        p@ == themed_path(theme@, size@, category@, name@, ext@),
{
    proof {
        reveal_strlit("/");
        reveal_strlit(".");
    }
    let mut p = String::from_str(theme);
    p.append("/");
    p.append(size);
    p.append("/");
    p.append(category);
    p.append("/");
    p.append(name);
    p.append(".");
    p.append(ext);
    proof {
        assert(p@ =~= themed_path(theme@, size@, category@, name@, ext@));
    }
    p
}

fn icon_size(i: usize) -> (s: &'static str)
    requires
        i < 8,
    ensures
        s@ == icon_sizes()[i as int],
{
    match i {
        0 => "48x48",
        1 => "scalable",
        2 => "256x256",
        3 => "128x128",
        4 => "64x64",
        5 => "32x32",
        6 => "24x24",
        _ => "16x16",
    }
}

fn icon_category(i: usize) -> (s: &'static str)
    requires
        i < 3,
    ensures
        s@ == icon_categories()[i as int],
{
    match i {
        0 => "apps",
        1 => "categories",
        _ => "mimetypes",
    }
}

fn icon_extension(i: usize) -> (s: &'static str)
    requires
        i < 2,
    ensures
        s@ == icon_extensions()[i as int],
{
    match i {
        0 => "png",
        _ => "svg",
    }
}

fn icon_theme(i: usize) -> (s: &'static str)
    requires
        i < 3,
    ensures
        s@ == icon_themes()[i as int],
{
    match i {
        0 => "/usr/share/icons/hicolor",
        1 => "/usr/share/icons/Adwaita",
        _ => "/usr/share/pixmaps",
    }
}

pub open spec fn texts_of(v: Seq<String>) -> Seq<Seq<char>> {
    v.map_values(|s: String| s@)
}

/// The files to try for an icon name, in order.
pub fn icon_file_candidates(icon_name: &str) -> (paths: Vec<String>)
    ensures
        texts_of(paths@) == icon_paths_of(icon_name@),
{
    let mut paths: Vec<String> = Vec::new();
    let n = icon_name.unicode_len();
    let absolute = n > 0 && icon_name.get_char(0) == '/';
    if absolute {
        paths.push(icon_name.to_owned());
    }
    let ghost head = texts_of(paths@);
    proof {
        assert(head =~= (if icon_name@.len() > 0 && icon_name@[0] == '/' {
            seq![icon_name@]
        } else {
            seq![]
        }));
    }
    let ghost flat = icon_extensions().map_values(|ext: Seq<char>| flat_path(pixmaps_dir(), icon_name@, ext));
    let mut e: usize = 0;
    while e < 2
        invariant
            e <= 2,
            flat == icon_extensions().map_values(|ext: Seq<char>| flat_path(pixmaps_dir(), icon_name@, ext)),
            texts_of(paths@) == head + flat.take(e as int),
        decreases 2 - e,
    {
        let p = flat_file("/usr/share/pixmaps", icon_name, icon_extension(e));
        let ghost before = paths@;
        paths.push(p);
        proof {
            lemma_map_values_push(before, p, |s: String| s@);
            lemma_take_push(flat, e as int);
            assert(texts_of(paths@) =~= head + flat.take(e + 1));
        }
        e = e + 1;
    }
    proof {
        assert(flat.take(2) =~= flat);
    }
    let ghost head2 = texts_of(paths@);
    let ghost themed = themed_paths(icon_name@);
    let mut k: usize = 0;
    while k < 144
        invariant
            k <= 144,
            themed == themed_paths(icon_name@),
            texts_of(paths@) == head2 + themed.take(k as int),
        decreases 144 - k,
    {
        let p = themed_file(
            icon_theme(k / 48),
            icon_size((k / 6) % 8),
            icon_category((k / 2) % 3),
            icon_name,
            icon_extension(k % 2),
        );
        let ghost before = paths@;
        paths.push(p);
        proof {
            lemma_map_values_push(before, p, |s: String| s@);
            lemma_take_push(themed, k as int);
            assert(texts_of(paths@) =~= head2 + themed.take(k + 1));
        }
        k = k + 1;
    }
    proof {
        assert(themed.take(144) =~= themed);
        assert(texts_of(paths@) =~= icon_paths_of(icon_name@));
    }
    paths
}

} // verus!
