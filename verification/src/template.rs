//! Palette templates: `*.t2` files in the wallbash config directory whose
//! first line is a header `[::HyDE::]|<output>|<command>` and whose body
//! holds tags `[::<role name>::]`.  Deploying a palette substitutes each
//! tag with the role's `#RRGGBB`, and writes the result with a shell script
//! that also runs the template's command.
use vstd::prelude::*;
use crate::text::{chars_of, find_char, first_eq, has_prefix, push_all, push_str_chars, split_all, split_all_chars, starts_with_at, string_from_chars, string_part};
use crate::folder::{extension, file_name, last_index, lemma_last_index};
use crate::colors::{hex_color, hex_name};
use vstd::hash_set::StringHashSet;

verus! {

// ------------------------------------------------------------------ where templates live

/// `$XDG_CONFIG_HOME/wallbash`, else `$HOME/.config/wallbash`, else empty.
pub open spec fn config_dir_of(xdg_config: Option<Seq<char>>, home: Option<Seq<char>>) -> Seq<char> {
    match xdg_config {
        Some(x) => x + "/wallbash"@,
        None => match home {
            Some(h) => h + "/.config"@ + "/wallbash"@,
            None => Seq::empty(),
        },
    }
}

/// The directory that holds the palette templates.
pub fn template_dir(xdg_config: Option<&str>, home: Option<&str>) -> (r: String)
    ensures
        r@ == config_dir_of(
            match xdg_config {
                Some(x) => Some(x@),
                None => None,
            },
            match home {
                Some(h) => Some(h@),
                None => None,
            },
        ),
{
    let mut out: Vec<char> = Vec::new();
    match xdg_config {
        Some(x) => {
            push_str_chars(&mut out, x);
            push_str_chars(&mut out, "/wallbash");
        },
        None => match home {
            Some(h) => {
                push_str_chars(&mut out, h);
                push_str_chars(&mut out, "/.config");
                push_str_chars(&mut out, "/wallbash");
            },
            None => {},
        },
    }
    string_from_chars(out.as_slice())
}

/// A template file is one whose extension is exactly `t2`.
pub open spec fn is_template_path(p: Seq<char>) -> bool {
    extension(file_name(p)) == Some("t2"@)
}

pub fn template_path(p: &str) -> (r: bool)
    ensures
        r == is_template_path(p@),
{
    let v = chars_of(p);
    let n = v.len();
    let mut s = n;
    while s > 0 && v[s - 1] != '/'
        invariant
            s <= n == v@.len(),
            forall|j: int| s <= j < n ==> #[trigger] v@[j] != '/',
        decreases s,
    {
        s = s - 1;
    }
    proof {
        lemma_last_index(v@, '/', s as int - 1);
    }
    let ghost name = file_name(v@);
    assert(name =~= v@.subrange(s as int, n as int));
    let mut d = n;
    while d > s && v[d - 1] != '.'
        invariant
            s <= d <= n == v@.len(),
            forall|j: int| d <= j < n ==> #[trigger] v@[j] != '.',
        decreases d,
    {
        d = d - 1;
    }
    proof {
        assert forall|j: int| d - s <= j < name.len() implies #[trigger] name[j] != '.' by {
            assert(name[j] == v@[s + j]);
        }
        if d > s {
            assert(name[d - s - 1] == v@[d - 1]);
        }
        lemma_last_index(name, '.', d - s - 1);
    }
    if d - s <= 1 {
        return false;
    }
    assert(name.skip(d - s) =~= v@.subrange(d as int, n as int));
    let t2 = chars_of("t2");
    let tail = string_part(&v, d, n);
    crate::text::same_chars(&tail, &t2)
}

// ------------------------------------------------------------------ the header

/// A template taken apart: where its output goes, the command to run after
/// writing it, and its body.
pub struct Template {
    pub out: Option<String>,
    pub cmd: Option<String>,
    pub body: String,
}

pub struct TemplateView {
    pub out: Option<Seq<char>>,
    pub cmd: Option<Seq<char>>,
    pub body: Seq<char>,
}

pub open spec fn opt_view(o: Option<String>) -> Option<Seq<char>> {
    match o {
        Some(s) => Some(s@),
        None => None,
    }
}

impl View for Template {
    type V = TemplateView;

    open spec fn view(&self) -> TemplateView {
        TemplateView { out: opt_view(self.out), cmd: opt_view(self.cmd), body: self.body@ }
    }
}

/// Field `i` of the header, when it is there and not empty.
pub open spec fn header_field(parts: Seq<Seq<char>>, i: int) -> Option<Seq<char>> {
    if i < parts.len() && parts[i].len() > 0 {
        Some(parts[i])
    } else {
        None
    }
}

/// What a template file holds, or `None` when it is to be skipped: it has
/// no line break, or its first line does not start with `[::HyDE::]`.
pub open spec fn template_of(text: Seq<char>) -> Option<TemplateView> {
    let k = first_eq(text, '\n');
    if k >= text.len() {
        None
    } else {
        let header = text.take(k as int);
        if !has_prefix(header, "[::HyDE::]"@) {
            None
        } else {
            let parts = split_all(header, '|');
            Some(
                TemplateView {
                    out: header_field(parts, 1),
                    cmd: header_field(parts, 2),
                    body: text.skip(k + 1int),
                },
            )
        }
    }
}

fn field(parts: &Vec<Vec<char>>, i: usize) -> (r: Option<String>)
    ensures
        opt_view(r) == header_field(Seq::new(parts@.len(), |j: int| parts@[j]@), i as int),
{
    if i < parts.len() && parts[i].len() > 0 {
        Some(string_from_chars(parts[i].as_slice()))
    } else {
        None
    }
}

/// Takes a template file's text apart.
pub fn parse_template(text: &str) -> (r: Option<Template>)
    ensures
        match r {
            Some(t) => template_of(text@) == Some(t@),
            None => template_of(text@) is None,
        },
{
    let v = chars_of(text);
    let n = v.len();
    assert(v@.subrange(0, n as int) == v@);
    let k = find_char(&v, 0, n, '\n');
    if k >= n {
        return None;
    }
    let header = string_part(&v, 0, k);
    assert(header@ == v@.take(k as int));
    let tag = chars_of("[::HyDE::]");
    assert(header@.skip(0) == header@);
    if !starts_with_at(&header, 0, &tag) {
        return None;
    }
    let parts = split_all_chars(&header, 0, k, '|');
    proof {
        assert(header@.subrange(0, k as int) == header@);
        let pv = Seq::new(parts@.len(), |j: int| parts@[j]@);
        assert(pv =~= split_all(header@, '|'));
    }
    let out = field(&parts, 1);
    let cmd = field(&parts, 2);
    let body = string_part(&v, k + 1, n);
    assert(body@ =~= v@.skip(k + 1int));
    Some(Template { out, cmd, body: string_from_chars(body.as_slice()) })
}

// ------------------------------------------------------------------ outputs already taken

/// The outputs claimed so far, kept in a hash set of paths; a later template
/// for the same output is skipped.
pub struct ClaimedOutputs {
    seen: StringHashSet,
}

impl View for ClaimedOutputs {
    type V = Set<Seq<char>>;

    closed spec fn view(&self) -> Set<Seq<char>> {
        self.seen@
    }
}

impl ClaimedOutputs {
    pub fn new() -> (c: Self)
        ensures
            c@ == Set::<Seq<char>>::empty(),
    {
        ClaimedOutputs { seen: StringHashSet::new() }
    }

    /// Claims an output: true when nobody had claimed it yet.
    pub fn claim(&mut self, dest: &str) -> (fresh: bool)
        ensures
            fresh == !old(self)@.contains(dest@),
            final(self)@ == old(self)@.insert(dest@),
    {
        self.seen.insert(dest.to_owned())
    }
}

/// Claiming an output twice: the second claim is refused and changes
/// nothing.
pub proof fn lemma_claim_twice(claimed: Set<Seq<char>>, dest: Seq<char>)
    ensures
        claimed.insert(dest).contains(dest),
        claimed.insert(dest).insert(dest) == claimed.insert(dest),
{
    assert(claimed.insert(dest).insert(dest) =~= claimed.insert(dest));
}

// ------------------------------------------------------------------ substitution

/// `str::replace` with a non-empty pattern: every match, from left to
/// right and not overlapping, replaced.
pub open spec fn replace_all(s: Seq<char>, pat: Seq<char>, rep: Seq<char>) -> Seq<char>
    decreases s.len(),
{
    if s.len() == 0 || pat.len() == 0 {
        s
    } else if has_prefix(s, pat) {
        rep + replace_all(s.skip(pat.len() as int), pat, rep)
    } else {
        seq![s[0]] + replace_all(s.drop_first(), pat, rep)
    }
}

/// Replaces every occurrence of `pat` in `s` by `rep`.
pub fn replace_chars(s: &Vec<char>, pat: &Vec<char>, rep: &Vec<char>) -> (out: Vec<char>)
    requires
        pat@.len() > 0,
    ensures
        out@ == replace_all(s@, pat@, rep@),
{
    let mut out: Vec<char> = Vec::new();
    let mut i: usize = 0;
    assert(s@.skip(0) == s@);
    while i < s.len()
        invariant
            pat@.len() > 0,
            i <= s@.len(),
            replace_all(s@, pat@, rep@) == out@ + replace_all(s@.skip(i as int), pat@, rep@),
        decreases s@.len() - i,
    {
        let ghost rest = s@.skip(i as int);
        if starts_with_at(s, i, pat) {
            let ghost before = out@;
            push_all(&mut out, rep);
            assert(rest.skip(pat@.len() as int) =~= s@.skip(i + pat@.len()));
            assert(replace_all(s@, pat@, rep@) =~= out@ + replace_all(s@.skip(i + pat@.len()), pat@, rep@));
            i = i + pat.len();
        } else {
            out.push(s[i]);
            assert(rest.drop_first() =~= s@.skip(i + 1));
            assert(rest[0] == s@[i as int]);
            i = i + 1;
        }
    }
    assert(s@.skip(i as int).len() == 0);
    assert(out@ + Seq::<char>::empty() =~= out@);
    out
}

/// A color of the generated palette.
pub struct PaletteColor {
    pub group: &'static str,
    pub name: &'static str,
    pub argb: u32,
}

/// The tag that stands for a role in a template.
pub open spec fn tag_of(name: Seq<char>) -> Seq<char> {
    "[::"@ + name + "::]"@
}

/// The body with each color's tag replaced, in the palette's order.
pub open spec fn rendered(body: Seq<char>, names: Seq<Seq<char>>, argbs: Seq<u32>) -> Seq<char>
    decreases names.len(),
{
    if names.len() == 0 || argbs.len() != names.len() {
        body
    } else {
        replace_all(
            rendered(body, names.drop_last(), argbs.drop_last()),
            tag_of(names.last()),
            hex_name(argbs.last()),
        )
    }
}

pub open spec fn color_names(colors: Seq<PaletteColor>) -> Seq<Seq<char>> {
    Seq::new(colors.len(), |i: int| colors[i].name@)
}

pub open spec fn color_values(colors: Seq<PaletteColor>) -> Seq<u32> {
    Seq::new(colors.len(), |i: int| colors[i].argb)
}

/// Fills a template's body with the palette.
pub fn render_template(body: &str, colors: &[PaletteColor]) -> (r: String)
    ensures
        r@ == rendered(body@, color_names(colors@), color_values(colors@)),
{
    let mut cur = chars_of(body);
    let mut i: usize = 0;
    while i < colors.len()
        invariant
            i <= colors@.len(),
            cur@ == rendered(
                body@,
                color_names(colors@).take(i as int),
                color_values(colors@).take(i as int),
            ),
        decreases colors@.len() - i,
    {
        let mut tag = chars_of("[::");
        push_str_chars(&mut tag, colors[i].name);
        push_str_chars(&mut tag, "::]");
        proof {
            reveal_strlit("[::");
        }
        let hex = chars_of(hex_color(colors[i].argb).as_str());
        cur = replace_chars(&cur, &tag, &hex);
        proof {
            let ns = color_names(colors@).take(i + 1);
            let vs = color_values(colors@).take(i + 1);
            assert(ns.drop_last() =~= color_names(colors@).take(i as int));
            assert(vs.drop_last() =~= color_values(colors@).take(i as int));
            assert(ns.last() == colors@[i as int].name@);
            assert(vs.last() == colors@[i as int].argb);
            assert(tag@ =~= tag_of(colors@[i as int].name@));
        }
        i = i + 1;
    }
    assert(color_names(colors@).take(colors@.len() as int) =~= color_names(colors@));
    assert(color_values(colors@).take(colors@.len() as int) =~= color_values(colors@));
    string_from_chars(cur.as_slice())
}

// ------------------------------------------------------------------ the deploy script

/// The shell script that deploys a rendered template: when the output file
/// exists it is overwritten with the text and the command is run,
/// otherwise a note is printed.  A template without an output has no
/// script.
pub open spec fn deploy_script_text(out: Option<Seq<char>>, cmd: Option<Seq<char>>, text: Seq<char>) -> Seq<char> {
    match out {
        None => Seq::empty(),
        Some(t) => "if [ -f \""@ + t + "\" ]; then\n"@ + "cat > \""@ + t + "\" << 'EOF'\n"@ + text
            + "\nEOF\n"@ + "echo \"[shell] deployed -> "@ + t + "\"\n"@ + (match cmd {
            Some(c) => c + "\n"@,
            None => Seq::empty(),
        }) + "else\n"@ + "echo '[shell] skipped (file not found) -> "@ + t + "'\n"@ + "fi\n"@,
    }
}

pub fn deploy_script(out: &Option<String>, cmd: &Option<String>, text: &str) -> (r: String)
    ensures
        r@ == deploy_script_text(opt_view(*out), opt_view(*cmd), text@),
{
    let mut s: Vec<char> = Vec::new();
    match out {
        None => {},
        Some(t) => {
            let t = t.as_str();
            push_str_chars(&mut s, "if [ -f \"");
            push_str_chars(&mut s, t);
            push_str_chars(&mut s, "\" ]; then\n");
            push_str_chars(&mut s, "cat > \"");
            push_str_chars(&mut s, t);
            push_str_chars(&mut s, "\" << 'EOF'\n");
            push_str_chars(&mut s, text);
            push_str_chars(&mut s, "\nEOF\n");
            push_str_chars(&mut s, "echo \"[shell] deployed -> ");
            push_str_chars(&mut s, t);
            push_str_chars(&mut s, "\"\n");
            let ghost mid = s@;
            match cmd {
                Some(c) => {
                    push_str_chars(&mut s, c.as_str());
                    push_str_chars(&mut s, "\n");
                },
                None => {},
            }
            let ghost after_cmd = s@;
            push_str_chars(&mut s, "else\n");
            push_str_chars(&mut s, "echo '[shell] skipped (file not found) -> ");
            push_str_chars(&mut s, t);
            push_str_chars(&mut s, "'\n");
            push_str_chars(&mut s, "fi\n");
            assert(s@ =~= deploy_script_text(opt_view(*out), opt_view(*cmd), text@));
        },
    }
    assert(out is None ==> s@ =~= Seq::<char>::empty());
    string_from_chars(s.as_slice())
}

} // verus!
