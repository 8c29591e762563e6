//! The command line of the compiler: `compile` or `run`, an input
//! directory and options, read from the argument list; and the relative
//! path from the generated project to a crate of the workspace.
use vstd::prelude::*;

use crate::text::{chars_of, owned, parse_u32, parse_u32_spec, split, starts_with, string_of, strs};

verus! {

/// The two commands.
#[derive(Debug, Clone, Copy, PartialEq, Eq)]
pub enum CommandType {
    Compile,
    Run,
}

/// The options as read, before the defaults that depend on paths.
#[derive(Debug)]
pub struct ParsedArgs {
    pub command: CommandType,
    pub input_dir: String,
    pub output_dir: Option<String>,
    pub name: Option<String>,
    pub title: String,
    pub width: u32,
    pub height: u32,
}

/// The options with every default filled in.
#[derive(Debug)]
pub struct Args {
    pub command: CommandType,
    pub input_dir: String,
    pub output_dir: String,
    pub name: String,
    pub title: String,
    pub width: u32,
    pub height: u32,
}

/// The options read so far: input directory, output directory, name,
/// title, width, height.
pub type OptsV = (Option<Seq<char>>, Option<Seq<char>>, Option<Seq<char>>, Seq<char>, u32, u32);

/// The options from argument `i` on, added to `acc`; `Err` with the message
/// for a flag without its value, a size that is not a `u32`, or an
/// argument that is neither a known flag nor the (first) input directory.
pub open spec fn args_from(raw: Seq<Seq<char>>, i: int, acc: OptsV) -> Result<OptsV, Seq<char>>
    decreases raw.len() - i,
{
    if i < 0 || i >= raw.len() {
        Ok(acc)
    } else {
        let a = raw[i];
        if a == "-o"@ || a == "--output"@ {
            if i + 1 >= raw.len() {
                Err("missing value for -o"@)
            } else {
                args_from(raw, i + 2, (acc.0, Some(raw[i + 1]), acc.2, acc.3, acc.4, acc.5))
            }
        } else if a == "--name"@ {
            if i + 1 >= raw.len() {
                Err("missing value for --name"@)
            } else {
                args_from(raw, i + 2, (acc.0, acc.1, Some(raw[i + 1]), acc.3, acc.4, acc.5))
            }
        } else if a == "--title"@ {
            if i + 1 >= raw.len() {
                Err("missing value for --title"@)
            } else {
                args_from(raw, i + 2, (acc.0, acc.1, acc.2, raw[i + 1], acc.4, acc.5))
            }
        } else if a == "--width"@ {
            if i + 1 >= raw.len() {
                Err("missing value for --width"@)
            } else {
                match parse_u32_spec(raw[i + 1]) {
                    Some(w) => args_from(raw, i + 2, (acc.0, acc.1, acc.2, acc.3, w, acc.5)),
                    None => Err("invalid --width"@),
                }
            }
        } else if a == "--height"@ {
            if i + 1 >= raw.len() {
                Err("missing value for --height"@)
            } else {
                match parse_u32_spec(raw[i + 1]) {
                    Some(h) => args_from(raw, i + 2, (acc.0, acc.1, acc.2, acc.3, acc.4, h)),
                    None => Err("invalid --height"@),
                }
            }
        } else if !starts_with(a, "-"@) && acc.0 is None {
            args_from(raw, i + 1, (Some(a), acc.1, acc.2, acc.3, acc.4, acc.5))
        } else {
            Err("unexpected argument: "@ + a)
        }
    }
}

/// The command and options of an argument list (program name first), or
/// the error message.
pub open spec fn parse_arg_list_spec(raw: Seq<Seq<char>>) -> Result<(CommandType, OptsV), Seq<char>> {
    if raw.len() < 2 {
        Err("missing command"@)
    } else if raw[1] != "compile"@ && raw[1] != "run"@ {
        Err("unknown command: "@ + raw[1])
    } else {
        match args_from(raw, 2, (None, None, None, "Demo"@, 800, 600)) {
            Err(e) => Err(e),
            Ok(o) => if o.0 is None {
                Err("missing input directory"@)
            } else {
                Ok(
                    (
                        if raw[1] == "compile"@ {
                            CommandType::Compile
                        } else {
                            CommandType::Run
                        },
                        o,
                    ),
                )
            },
        }
    }
}

pub open spec fn opt_str(o: Option<String>) -> Option<Seq<char>> {
    match o {
        Some(s) => Some(s@),
        None => None,
    }
}

/// The options read as plain values.
pub open spec fn parsed_view(p: ParsedArgs) -> (CommandType, OptsV) {
    (p.command, (Some(p.input_dir@), opt_str(p.output_dir), opt_str(p.name), p.title@, p.width, p.height))
}

fn arg_eq(a: &String, lit: &str) -> (b: bool)
    ensures
        b == (a@ == lit@),
{
    crate::text::eq_str(a.as_str(), lit)
}

/// Reads the command and the options from the argument list `raw`, whose
/// first entry is the program's name.
pub fn parse_arg_list(raw: &[String]) -> (r: Result<ParsedArgs, String>)
    ensures
        match r {
            Ok(p) => parse_arg_list_spec(strs(raw@)) == Ok::<(CommandType, OptsV), Seq<char>>(parsed_view(p)),
            Err(e) => parse_arg_list_spec(strs(raw@)) == Err::<(CommandType, OptsV), Seq<char>>(e@),
        },
{
    let ghost rv = strs(raw@);
    let n = raw.len();
    if n < 2 {
        return Err(owned("missing command"));
    }
    assert(rv[1] == raw@[1]@);
    let command = if arg_eq(&raw[1], "compile") {
        CommandType::Compile
    } else if arg_eq(&raw[1], "run") {
        CommandType::Run
    } else {
        let mut m = chars_of("unknown command: ");
        crate::text::push_all(&mut m, &chars_of(raw[1].as_str()));
        return Err(string_of(&m));
    };
    let mut input_dir: Option<String> = None;
    let mut output_dir: Option<String> = None;
    let mut name: Option<String> = None;
    let mut title = owned("Demo");
    let mut width: u32 = 800;
    let mut height: u32 = 600;
    let mut i: usize = 2;
    while i < n
        invariant
            2 <= i <= n + 1,
            n == raw@.len(),
            rv == strs(raw@),
            n >= 2,
            rv[1] == "compile"@ || rv[1] == "run"@,
            command == (if rv[1] == "compile"@ { CommandType::Compile } else { CommandType::Run }),
            args_from(rv, 2, (None, None, None, "Demo"@, 800, 600)) == args_from(
                rv,
                i as int,
                (opt_str(input_dir), opt_str(output_dir), opt_str(name), title@, width, height),
            ),
        decreases n + 1 - i,
    {
        let a = &raw[i];
        assert(rv[i as int] == a@);
        if arg_eq(a, "-o") || arg_eq(a, "--output") {
            if i + 1 >= n {
                return Err(owned("missing value for -o"));
            }
            assert(rv[i + 1] == raw@[i + 1]@);
            output_dir = Some(owned(raw[i + 1].as_str()));
            i += 2;
        } else if arg_eq(a, "--name") {
            if i + 1 >= n {
                return Err(owned("missing value for --name"));
            }
            assert(rv[i + 1] == raw@[i + 1]@);
            name = Some(owned(raw[i + 1].as_str()));
            i += 2;
        } else if arg_eq(a, "--title") {
            if i + 1 >= n {
                return Err(owned("missing value for --title"));
            }
            assert(rv[i + 1] == raw@[i + 1]@);
            title = owned(raw[i + 1].as_str());
            i += 2;
        } else if arg_eq(a, "--width") {
            if i + 1 >= n {
                return Err(owned("missing value for --width"));
            }
            assert(rv[i + 1] == raw@[i + 1]@);
            match parse_u32(&chars_of(raw[i + 1].as_str())) {
                Some(w) => width = w,
                None => return Err(owned("invalid --width")),
            }
            i += 2;
        } else if arg_eq(a, "--height") {
            if i + 1 >= n {
                return Err(owned("missing value for --height"));
            }
            assert(rv[i + 1] == raw@[i + 1]@);
            match parse_u32(&chars_of(raw[i + 1].as_str())) {
                Some(h) => height = h,
                None => return Err(owned("invalid --height")),
            }
            i += 2;
        } else if !crate::text::starts_with_lit(&chars_of(a.as_str()), "-") && input_dir.is_none() {
            input_dir = Some(owned(a.as_str()));
            i += 1;
        } else {
            let mut m = chars_of("unexpected argument: ");
            crate::text::push_all(&mut m, &chars_of(a.as_str()));
            return Err(string_of(&m));
        }
    }
    match input_dir {
        None => Err(owned("missing input directory")),
        Some(d) => Ok(ParsedArgs { command, input_dir: d, output_dir, name, title, width, height }),
    }
}

/// The project's name: the one given, else the input directory's own name
/// (`dir_name`), else `app`.
pub fn project_name(p: &ParsedArgs, dir_name: Option<String>) -> (r: String)
    ensures
        r@ == match opt_str(p.name) {
            Some(n) => n,
            None => match opt_str(dir_name) {
                Some(d) => d,
                None => "app"@,
            },
        },
{
    match &p.name {
        Some(n) => owned(n.as_str()),
        None => match dir_name {
            Some(d) => d,
            None => owned("app"),
        },
    }
}

/// The options with the project's name `name` and the output directory
/// `default_output` used when none was given.
pub fn finish_args(p: ParsedArgs, name: String, default_output: String) -> (r: Args)
    ensures
        r.command == p.command,
        r.input_dir@ == p.input_dir@,
        r.output_dir@ == match opt_str(p.output_dir) {
            Some(o) => o,
            None => default_output@,
        },
        r.name@ == name@,
        r.title@ == p.title@,
        r.width == p.width,
        r.height == p.height,
{
    let output_dir = match p.output_dir {
        Some(o) => o,
        None => default_output,
    };
    Args {
        command: p.command,
        input_dir: p.input_dir,
        output_dir,
        name,
        title: p.title,
        width: p.width,
        height: p.height,
    }
}

/// A path of one plain component: not empty, not `.` or `..`, and free of
/// the characters that separate components or name a drive on any platform.
pub open spec fn plain_component(s: Seq<char>) -> bool {
    &&& s.len() > 0
    &&& s != "."@
    &&& s != ".."@
    &&& forall|i: int| 0 <= i < s.len() ==> s[i] != '/' && s[i] != '\\' && s[i] != ':'
}

/// A relative path of plain components joined by single `/`.
pub open spec fn slash_path(s: Seq<char>) -> bool {
    forall|i: int| 0 <= i < split(s, '/').len() ==> plain_component(#[trigger] split(s, '/')[i])
}

/// A directory path that a name can be joined to with one separator: not
/// empty, not ending in `/`, free of `\\` and `:`.
pub open spec fn join_base(s: Seq<char>) -> bool {
    &&& s.len() > 0
    &&& s.last() != '/'
    &&& forall|i: int| 0 <= i < s.len() ==> s[i] != '\\' && s[i] != ':'
}

/// A path without one final `/`, unless it is the whole path.
pub open spec fn path_core(p: Seq<char>) -> Seq<char> {
    if p.len() > 1 && p.last() == '/' {
        p.drop_last()
    } else {
        p
    }
}

/// The last component of a path of plain components joined by single `/`,
/// relative or after one leading `/`, with at most one `/` at the end;
/// `None` for other paths.
pub open spec fn known_file_name(p: Seq<char>) -> Option<Seq<char>> {
    let q = path_core(p);
    if slash_path(q) {
        Some(split(q, '/').last())
    } else if q.len() > 1 && q[0] == '/' && slash_path(q.drop_first()) {
        Some(split(q.drop_first(), '/').last())
    } else {
        None
    }
}

/// The last component of the path `p` (`Path::file_name`, lossily as
/// text). The contract claims it for paths of plain components joined by
/// single `/` (which every platform splits at `/`), relative or after a
/// leading `/`, with or without one `/` at the end: the last component;
/// and that the root `/` has none. How other paths are split is left to the
/// platform's rules and unstated.
#[verifier::external_body]
fn path_file_name(p: &str) -> (r: Option<String>)
    ensures
        known_file_name(p@) matches Some(n) ==> r is Some && r.unwrap()@ == n,
        p@ == seq!['/'] ==> r is None,
{
    std::path::Path::new(p).file_name().map(|n| n.to_string_lossy().to_string())
}

/// The path `base` joined with `name` (`Path::join`, lossily as text). The
/// contract claims that a plain name joined to a relative directory path
/// that does not end in a separator comes after it and one separator, `/`
/// or `\\` by the platform; other joins are left unstated.
#[verifier::external_body]
fn path_join(base: &str, name: &str) -> (r: String)
    ensures
        join_base(base@) && plain_component(name@) ==> (r@ == base@ + seq!['/'] + name@ || r@ == base@
            + seq!['\\'] + name@),
{
    std::path::Path::new(base).join(name).to_string_lossy().to_string()
}

/// The options of an argument list, defaults filled in: the name from the
/// input directory, the output directory `target/generated/<name>`.
pub fn parse_args(raw: &[String]) -> (r: Result<Args, String>)
    ensures
        match parse_arg_list_spec(strs(raw@)) {
            Err(e) => r matches Err(m) && m@ == e,
            Ok((cmd, o)) => r matches Ok(a) && a.command == cmd && Some(a.input_dir@) == o.0
                && a.title@ == o.3 && a.width == o.4 && a.height == o.5 && (o.2 matches Some(nm)
                ==> a.name@ == nm) && (o.1 matches Some(od) ==> a.output_dir@ == od) && (o.2 is None
                && known_file_name(a.input_dir@) is Some ==> a.name@ == known_file_name(a.input_dir@)->0) && (o.2
                is None && a.input_dir@ == seq!['/'] ==> a.name@ == "app"@) && (o.1 is None
                && plain_component(a.name@) ==> (a.output_dir@ == "target/generated/"@ + a.name@
                || a.output_dir@ == "target/generated\\"@ + a.name@)),
        },
{
    let p = match parse_arg_list(raw) {
        Ok(p) => p,
        Err(e) => return Err(e),
    };
    let dir_name = if p.name.is_none() {
        path_file_name(p.input_dir.as_str())
    } else {
        None
    };
    let name = project_name(&p, dir_name);
    let default_output = if p.output_dir.is_none() {
        proof {
            reveal_strlit("target/generated");
            reveal_strlit("target/generated/");
            reveal_strlit("target/generated\\");
            assert("target/generated/"@ =~= "target/generated"@ + seq!['/']);
            assert("target/generated\\"@ =~= "target/generated"@ + seq!['\\']);
        }
        path_join("target/generated", name.as_str())
    } else {
        String::new()
    };
    Ok(finish_args(p, name, default_output))
}

// ═══════════════════════ relative paths ═══════════════════════

/// The number of leading components that two paths share.
pub open spec fn common_prefix(a: Seq<Seq<char>>, b: Seq<Seq<char>>, k: int) -> int
    decreases a.len() - k,
{
    if k < 0 || k >= a.len() || k >= b.len() || a[k] != b[k] {
        k
    } else {
        common_prefix(a, b, k + 1)
    }
}

/// `../` repeated `n` times.
pub open spec fn ups(n: nat) -> Seq<char>
    decreases n,
{
    if n == 0 {
        seq![]
    } else {
        ups((n - 1) as nat) + "../"@
    }
}

/// Each component followed by `/`.
pub open spec fn with_slashes(parts: Seq<Seq<char>>) -> Seq<char>
    decreases parts.len(),
{
    if parts.len() == 0 {
        seq![]
    } else {
        with_slashes(parts.drop_last()) + parts.last() + seq!['/']
    }
}

/// The relative path from the directory with components `from` to the
/// path with components `to`: `../` for each component of `from` past the
/// common prefix, then the rest of `to` joined with `/`, with no final `/`
/// and every `\` turned into `/`.
pub open spec fn relative_path_spec(from: Seq<Seq<char>>, to: Seq<Seq<char>>) -> Seq<char> {
    let common = common_prefix(from, to, 0);
    let s = ups((from.len() - common) as nat) + with_slashes(to.skip(common));
    let t = if s.len() > 0 && s.last() == '/' {
        s.drop_last()
    } else {
        s
    };
    crate::text::replace_all(t, seq!['\\'], seq!['/'])
}

proof fn lemma_common_prefix(a: Seq<Seq<char>>, b: Seq<Seq<char>>, k: int)
    requires
        0 <= k <= a.len(),
        k <= b.len(),
    ensures
        k <= common_prefix(a, b, k) <= a.len(),
        common_prefix(a, b, k) <= b.len(),
    decreases a.len() - k,
{
    if k < a.len() && k < b.len() && a[k] == b[k] {
        lemma_common_prefix(a, b, k + 1);
    }
}

/// The relative path from the directory with components `from_parts` to
/// the path with components `to_parts`.
pub fn relative_path(from_parts: &[String], to_parts: &[String]) -> (r: String)
    ensures
        r@ == relative_path_spec(strs(from_parts@), strs(to_parts@)),
{
    let ghost fv = strs(from_parts@);
    let ghost tv = strs(to_parts@);
    let mut common: usize = 0;
    while common < from_parts.len() && common < to_parts.len() && crate::text::eq_str(
        from_parts[common].as_str(),
        to_parts[common].as_str(),
    )
        invariant
            common <= from_parts@.len(),
            common <= to_parts@.len(),
            fv == strs(from_parts@),
            tv == strs(to_parts@),
            common_prefix(fv, tv, 0) == common_prefix(fv, tv, common as int),
        decreases from_parts.len() - common,
    {
        assert(fv[common as int] == from_parts@[common as int]@);
        assert(tv[common as int] == to_parts@[common as int]@);
        common += 1;
    }
    proof {
        if common < from_parts@.len() && common < to_parts@.len() {
            assert(fv[common as int] == from_parts@[common as int]@);
            assert(tv[common as int] == to_parts@[common as int]@);
        }
    }
    let up_count = from_parts.len() - common;
    let mut result: Vec<char> = Vec::new();
    let mut k: usize = 0;
    assert(result@ =~= ups(0));
    while k < up_count
        invariant
            k <= up_count,
            result@ == ups(k as nat),
        decreases up_count - k,
    {
        crate::text::push_lit(&mut result, "../");
        k += 1;
    }
    let ghost head = result@;
    let mut j = common;
    assert(tv.skip(common as int).take(0) =~= Seq::<Seq<char>>::empty());
    assert(head + with_slashes(tv.skip(common as int).take(0)) =~= head);
    while j < to_parts.len()
        invariant
            common <= j <= to_parts@.len(),
            tv == strs(to_parts@),
            result@ == head + with_slashes(tv.skip(common as int).take(j - common)),
        decreases to_parts.len() - j,
    {
        let ghost prev = tv.skip(common as int).take(j - common);
        crate::text::push_all(&mut result, &chars_of(to_parts[j].as_str()));
        result.push('/');
        assert(tv.skip(common as int).take(j + 1 - common).drop_last() =~= prev);
        assert(tv.skip(common as int).take(j + 1 - common).last() == to_parts@[j as int]@);
        assert(result@ =~= head + with_slashes(tv.skip(common as int).take(j + 1 - common)));
        j += 1;
    }
    assert(tv.skip(common as int).take(to_parts@.len() - common) =~= tv.skip(common as int));
    if result.len() > 0 && result[result.len() - 1] == '/' {
        result.pop();
    }
    let bs: Vec<char> = vec!['\\'];
    let fs: Vec<char> = vec!['/'];
    assert(bs@ =~= seq!['\\']);
    assert(fs@ =~= seq!['/']);
    let out = crate::text::replace_chars(&result, &bs, &fs);
    string_of(&out)
}

// ═══════════════════════ the generated project ═══════════════════════

/// The `Cargo.toml` of a generated project named `name`, depending on the
/// workspace's `renderer` and `dom` crates at the given relative paths.
pub open spec fn cargo_manifest_spec(name: Seq<char>, renderer: Seq<char>, dom: Seq<char>) -> Seq<char> {
    "[workspace]\n\n[package]\nname = \""@ + name
        + "\"\nversion = \"0.1.0\"\nedition = \"2021\"\n\n[dependencies]\nrenderer = { path = \""@
        + renderer + "\" }\ndom = { path = \""@ + dom + "\" }\n"@
}

/// The `Cargo.toml` of a generated project.
pub fn cargo_manifest(name: &str, renderer_rel: &str, dom_rel: &str) -> (r: String)
    ensures
        r@ == cargo_manifest_spec(name@, renderer_rel@, dom_rel@),
{
    let mut o = chars_of("[workspace]\n\n[package]\nname = \"");
    crate::text::push_all(&mut o, &chars_of(name));
    crate::text::push_lit(
        &mut o,
        "\"\nversion = \"0.1.0\"\nedition = \"2021\"\n\n[dependencies]\nrenderer = { path = \"",
    );
    crate::text::push_all(&mut o, &chars_of(renderer_rel));
    crate::text::push_lit(&mut o, "\" }\ndom = { path = \"");
    crate::text::push_all(&mut o, &chars_of(dom_rel));
    crate::text::push_lit(&mut o, "\" }\n");
    string_of(&o)
}

} // verus!
