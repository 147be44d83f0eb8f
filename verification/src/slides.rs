//! Plain slides: the text of a markdown file with its title and the images it
//! links, found by matching the text against `![alt](path)`.
use crate::deck::{fallback_title, fallback_title_of};
use crate::markdown::{join_path_exec, lemma_deep_view_empty, lemma_deep_view_push, resolve_path, http_prefix, https_prefix};
use crate::text::{
    chars_of, copy_string, has_prefix, str_lines, str_lines_exec, starts_with_at, substring,
    to_owned_string, trim, trim_bounds, trim_string,
};
use vstd::prelude::*;
use vstd::string::StringExecFns;

verus! {

/// An image a slide links to.
#[derive(Clone, Debug)]
pub struct ImageRef {
    pub path: String,
}

impl View for ImageRef {
    type V = Seq<char>;

    open spec fn view(&self) -> Seq<char> {
        self.path@
    }
}

impl DeepView for ImageRef {
    type V = Seq<char>;

    open spec fn deep_view(&self) -> Seq<char> {
        self.path@
    }
}

/// A slide: its file, title, text and linked images.
#[derive(Clone, Debug)]
pub struct Slide {
    pub path: String,
    pub name: String,
    pub title: String,
    pub content: String,
    pub images: Vec<ImageRef>,
}

// ---------------------------------------------------------------------------
// Titles
// ---------------------------------------------------------------------------

/// `s` without its leading `#` characters.
pub open spec fn drop_hashes(s: Seq<char>) -> Seq<char>
    decreases s.len(),
{
    if s.len() > 0 && s[0] == '#' {
        drop_hashes(s.drop_first())
    } else {
        s
    }
}

/// The heading text of a line: for a line that starts with `#` once trimmed,
/// what follows the `#`s, trimmed, unless empty.
pub open spec fn heading_text(line: Seq<char>) -> Option<Seq<char>> {
    let t = trim(line);
    if t.len() > 0 && t[0] == '#' {
        let v = trim(drop_hashes(t.drop_first()));
        if v.len() > 0 {
            Some(v)
        } else {
            None
        }
    } else {
        None
    }
}

/// The heading text of the first line that has one.
pub open spec fn first_heading_of(lines: Seq<Seq<char>>) -> Option<Seq<char>>
    decreases lines.len(),
{
    if lines.len() == 0 {
        None
    } else {
        match heading_text(lines[0]) {
            Some(v) => Some(v),
            None => first_heading_of(lines.drop_first()),
        }
    }
}

/// The heading text of one line, if it has one.
fn heading_of_line(line: &str) -> (r: Option<String>)
    ensures
        r.deep_view() == heading_text(line@),
{
    let t = trim_string(line);
    let cs = chars_of(t.as_str());
    if cs.len() == 0 || cs[0] != '#' {
        return None;
    }
    let mut i: usize = 1;
    proof {
        assert(cs@.skip(1) =~= t@.drop_first());
    }
    while i < cs.len() && cs[i] == '#'
        invariant
            1 <= i <= cs.len(),
            cs@ == t@,
            drop_hashes(t@.drop_first()) == drop_hashes(cs@.skip(i as int)),
        decreases cs.len() - i,
    {
        assert(cs@.skip(i as int).drop_first() =~= cs@.skip(i as int + 1));
        i += 1;
    }
    let rest = substring(cs.as_slice(), i, cs.len());
    proof {
        assert(rest@ =~= cs@.skip(i as int));
        if i < cs.len() {
            assert(cs@.skip(i as int)[0] == cs@[i as int]);
        }
        assert(drop_hashes(cs@.skip(i as int)) == cs@.skip(i as int));
    }
    let v = trim_string(rest.as_str());
    if v.as_str().is_empty() {
        None
    } else {
        Some(v)
    }
}

/// The first heading of a slide's text: the first line that, trimmed, starts
/// with `#` and has text after its `#`s.
pub fn first_heading(content: &str) -> (r: Option<String>)
    ensures
        r.deep_view() == first_heading_of(str_lines(content@)),
{
    let lines = str_lines_exec(content);
    let ghost lv = lines.deep_view();
    let mut i: usize = 0;
    proof {
        assert(lv.skip(0) =~= lv);
    }
    while i < lines.len()
        invariant
            i <= lines.len(),
            lv == lines.deep_view(),
            lv == str_lines(content@),
            first_heading_of(lv) == first_heading_of(lv.skip(i as int)),
        decreases lines.len() - i,
    {
        proof {
            assert(lv.skip(i as int)[0] == lines[i as int]@);
            assert(lv.skip(i as int).drop_first() =~= lv.skip(i as int + 1));
        }
        match heading_of_line(lines[i].as_str()) {
            Some(v) => {
                return Some(v);
            },
            None => {},
        }
        i += 1;
    }
    None
}

// ---------------------------------------------------------------------------
// Image links
// ---------------------------------------------------------------------------

/// The first position at or after `from` where `c` occurs in `s`, or -1.
pub open spec fn index_from(s: Seq<char>, c: char, from: int) -> int
    decreases s.len() - from,
{
    if from < 0 || from >= s.len() {
        -1
    } else if s[from] == c {
        from
    } else {
        index_from(s, c, from + 1)
    }
}

/// The target of an image link `![...](target)` starting at `i`, as the
/// bounds of the target: the alt text holds no `]`, the target is not empty
/// and holds no `)`.
pub open spec fn link_at(s: Seq<char>, i: int) -> Option<(int, int)> {
    if 0 <= i && i + 1 < s.len() && s[i] == '!' && s[i + 1] == '[' {
        let j = index_from(s, ']', i + 2);
        if j >= 0 && j + 1 < s.len() && s[j + 1] == '(' {
            let k = index_from(s, ')', j + 2);
            if k > j + 2 {
                Some((j + 2, k))
            } else {
                None
            }
        } else {
            None
        }
    } else {
        None
    }
}

/// The targets of the image links of `s` from position `from` on, left to
/// right, each search resuming after the link found.
pub open spec fn link_targets(s: Seq<char>, from: int) -> Seq<Seq<char>>
    decreases s.len() - from,
{
    if from < 0 || from >= s.len() {
        Seq::empty()
    } else {
        match link_at(s, from) {
            Some((a, b)) => {
                proof {
                    lemma_link_at_bounds(s, from);
                }
                seq![s.subrange(a, b)] + link_targets(s, b + 1)
            },
            None => link_targets(s, from + 1),
        }
    }
}

/// `s` without leading and trailing `<` and `>`.
pub open spec fn strip_angles(s: Seq<char>) -> Seq<char>
    decreases s.len(),
{
    if s.len() > 0 && (s[0] == '<' || s[0] == '>') {
        strip_angles(s.drop_first())
    } else if s.len() > 0 && (s.last() == '<' || s.last() == '>') {
        strip_angles(s.drop_last())
    } else {
        s
    }
}

/// Where a link target points, from a slide in `dir`.
pub open spec fn image_path(target: Seq<char>, dir: Seq<char>) -> Seq<char> {
    resolve_path(strip_angles(trim(target)), dir)
}

/// The images a slide's text links to, in order.
pub open spec fn images_of(content: Seq<char>, dir: Seq<char>) -> Seq<Seq<char>> {
    link_targets(content, 0).map_values(|t: Seq<char>| image_path(t, dir))
}

/// The search for `c` from `from` finds it or reports `-1`, and no `c` comes
/// between `from` and what it finds.
pub proof fn lemma_index_from_props(s: Seq<char>, c: char, from: int)
    requires
        0 <= from,
    ensures
        index_from(s, c, from) == -1 || (from <= index_from(s, c, from) < s.len() && s[index_from(
            s,
            c,
            from,
        )] == c),
        forall|q: int|
            from <= q < s.len() && (index_from(s, c, from) == -1 || q < index_from(s, c, from))
                ==> s[q] != c,
    decreases s.len() - from,
{
    if from < s.len() && s[from] != c {
        lemma_index_from_props(s, c, from + 1);
    }
}

/// An image link found at `i` has its target inside the text, after `i`.
pub proof fn lemma_link_at_bounds(s: Seq<char>, i: int)
    ensures
        link_at(s, i) matches Some((a, b)) ==> i < a <= b < s.len(),
{
    if 0 <= i && i + 1 < s.len() && s[i] == '!' && s[i + 1] == '[' {
        lemma_index_from_props(s, ']', i + 2);
        let j = index_from(s, ']', i + 2);
        if j >= 0 {
            lemma_index_from_props(s, ')', j + 2);
        }
    }
}

/// The pattern of an image link `![alt](target)`; its first group is the target.
pub open spec fn image_link_pattern() -> Seq<char> {
    r"!\[[^\]]*\]\(([^)]+)\)"@
}

/// `regex::Regex::new(pattern)` and `Regex::captures_iter` over `text`, each
/// match given as its first capture group. Claimed, for the image-link pattern
/// (which compiles, so nothing panics): the matches are the leftmost ones, found
/// left to right with each search resuming where the previous match ended, as
/// `link_at` and `link_targets` state them.
#[verifier::external_body]
fn captures_first_groups(pattern: &str, text: &str) -> (r: Vec<String>)
    requires
        pattern@ == image_link_pattern(),
    ensures
        r.deep_view() == link_targets(text@, 0),
{
    let re = regex::Regex::new(pattern).unwrap();
    re.captures_iter(text).map(|caps| caps[1].to_string()).collect()
}

/// A link target with white space and surrounding angle brackets removed.
fn clean_target(t: &str) -> (r: String)
    ensures
        r@ == strip_angles(trim(t@)),
{
    let trimmed = trim_string(t);
    let cs = chars_of(trimmed.as_str());
    let ghost tv = trimmed@;
    let mut a: usize = 0;
    let mut b: usize = cs.len();
    proof {
        assert(tv.subrange(0, tv.len() as int) =~= tv);
    }
    while a < b && (cs[a] == '<' || cs[a] == '>' || cs[b - 1] == '<' || cs[b - 1] == '>')
        invariant
            a <= b <= cs.len(),
            cs@ == tv,
            strip_angles(tv) == strip_angles(tv.subrange(a as int, b as int)),
        decreases b - a,
    {
        let ghost cur = tv.subrange(a as int, b as int);
        if cs[a] == '<' || cs[a] == '>' {
            assert(cur[0] == cs@[a as int]);
            assert(cur.drop_first() =~= tv.subrange(a + 1, b as int));
            a += 1;
        } else {
            assert(cur[0] == cs@[a as int]);
            assert(cur.last() == cs@[b - 1]);
            assert(cur.drop_last() =~= tv.subrange(a as int, b - 1));
            b -= 1;
        }
    }
    proof {
        let cur = tv.subrange(a as int, b as int);
        if a < b {
            assert(cur[0] == cs@[a as int]);
            assert(cur.last() == cs@[b - 1]);
        }
        assert(strip_angles(cur) == cur);
    }
    substring(cs.as_slice(), a, b)
}

/// The image links of a slide's text, with relative targets resolved against
/// the slide's directory `dir`.
pub fn extract_images(content: &str, dir: &str) -> (r: Vec<ImageRef>)
    ensures
        r.deep_view() == images_of(content@, dir@),
{
    let targets = captures_first_groups(r"!\[[^\]]*\]\(([^)]+)\)", content);
    let ghost ts = targets.deep_view();
    let mut out: Vec<ImageRef> = Vec::new();
    proof {
        lemma_deep_view_empty(out);
    }
    let mut i: usize = 0;
    while i < targets.len()
        invariant
            i <= targets@.len(),
            ts == targets.deep_view(),
            ts == link_targets(content@, 0),
            out.deep_view() == ts.take(i as int).map_values(|t: Seq<char>| image_path(t, dir@)),
        decreases targets.len() - i,
    {
        let cleaned = clean_target(targets[i].as_str());
        let img = ImageRef { path: resolve_image(cleaned.as_str(), dir) };
        let ghost before = out;
        out.push(img);
        proof {
            lemma_deep_view_push(before, out, img);
            assert(ts.take(i + 1) =~= ts.take(i as int).push(ts[i as int]));
            assert(out.deep_view() =~= ts.take(i + 1).map_values(|t: Seq<char>| image_path(t, dir@)));
        }
        i += 1;
    }
    proof {
        assert(ts.take(i as int) =~= ts);
    }
    out
}

/// Where a cleaned link target points from a slide in `dir`.
fn resolve_image(p: &str, dir: &str) -> (r: String)
    ensures
        r@ == resolve_path(p@, dir@),
{
    let cs = chars_of(p);
    let http = vec!['h', 't', 't', 'p', ':', '/', '/'];
    let https = vec!['h', 't', 't', 'p', 's', ':', '/', '/'];
    assert(http@ == http_prefix());
    assert(https@ == https_prefix());
    let a = starts_with_at(cs.as_slice(), 0, http.as_slice());
    let b = starts_with_at(cs.as_slice(), 0, https.as_slice());
    assert(a == has_prefix(p@, http_prefix()));
    assert(b == has_prefix(p@, https_prefix()));
    if a || b || (cs.len() > 0 && cs[0] == '/') {
        to_owned_string(p)
    } else {
        join_path_exec(dir, p)
    }
}

/// The slide of the file at `path` (in directory `dir`) whose text, front
/// matter removed, is `content`.
pub fn slide_from(path: String, dir: &str, content: String) -> (r: Slide)
    ensures
        r.path@ == path@,
        r.name@ == crate::deck::shown_name(path@),
        r.title@ == (match first_heading_of(str_lines(content@)) {
            Some(t) => t,
            None => fallback_title_of(path@),
        }),
        r.content@ == content@,
        r.images.deep_view() == images_of(content@, dir@),
{
    let title = match first_heading(content.as_str()) {
        Some(t) => t,
        None => fallback_title(path.as_str()),
    };
    let images = extract_images(content.as_str(), dir);
    let name = match crate::deck::path_file_name(path.as_str()) {
        Some(n) => n,
        None => String::new(),
    };
    Slide { path, name, title, content, images }
}

} // verus!
