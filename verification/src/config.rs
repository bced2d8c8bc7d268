//! Where things live and what they are called: the runtime tree, the state
//! that outlives it, the engine and the images. Paths are written with `/`.

use vstd::prelude::*;
use crate::text::{chars_of, char_texts, push_all, same, slice_of, string_of};

verus! {

/// `base/rel`: `rel` after `base`, with one `/` between them.
pub open spec fn joined_path(base: Seq<char>, rel: Seq<char>) -> Seq<char> {
    if base.len() == 0 {
        rel
    } else if base.last() == '/' {
        base + rel
    } else {
        base + seq!['/'] + rel
    }
}

/// `base/rel`.
pub fn join_path(base: &str, rel: &str) -> (out: String)
    ensures
        out@ == joined_path(base@, rel@),
{
    let b = chars_of(base);
    let mut out = chars_of(base);
    if b.len() > 0 && b[b.len() - 1] != '/' {
        out.push('/');
    }
    push_all(&mut out, chars_of(rel).as_slice());
    string_of(out.as_slice())
}

pub struct Config {
    /// The runtime tree: bin/, scripts/, config/, sql/, guest/, vendor/.
    pub root: String,
    /// Generated conf, seeded schema, backups. Outside `root` on purpose: a
    /// new app version replaces the runtime wholesale and this must survive it.
    pub state: String,
    pub nebula_home: String,
    pub nebula: String,
    pub docker: String,
    pub image: String,
    pub db_image: String,
    /// The app's release version, or `None` when this build cannot tell.
    pub app_version: Option<String>,
}

/// What the machine says about where things are, looked up before a
/// configuration is decided on.
pub struct Surroundings {
    /// `RAGNAROKMAC_STATE`, when set.
    pub state_override: Option<String>,
    /// The app's data root on this platform.
    pub data_root: String,
    /// Whether the runtime tree is `<data root>/runtime`, when both could be
    /// resolved to canonical paths.
    pub same_as_installed: Option<bool>,
    /// `NEBULA_HOME`, when set.
    pub nebula_home_override: Option<String>,
    /// `NEBULA_BIN`, when it names something that exists.
    pub nebula_bin: Option<String>,
    /// The docker client found, bundled or installed.
    pub docker: Option<String>,
    /// `RAGNAROKMAC_IMAGE`, when set.
    pub image_override: Option<String>,
    /// `RAGNAROKMAC_DB_IMAGE`, when set.
    pub db_image_override: Option<String>,
    /// The app's version, when the runtime tree says.
    pub app_version: Option<String>,
    /// What executables end in here: `.exe` on Windows, nothing elsewhere.
    pub exe_suffix: String,
}

/// Where the next `/` is at or after `k`, or the end.
pub open spec fn next_slash(s: Seq<char>, k: int) -> int
    decreases s.len() - k,
{
    if k < 0 || k >= s.len() || s[k] == '/' {
        k
    } else {
        next_slash(s, k + 1)
    }
}

pub proof fn lemma_next_slash(s: Seq<char>, k: int)
    requires
        0 <= k <= s.len(),
    ensures
        k <= next_slash(s, k) <= s.len(),
        next_slash(s, k) < s.len() ==> s[next_slash(s, k)] == '/',
    decreases s.len() - k,
{
    if k < s.len() && s[k] != '/' {
        lemma_next_slash(s, k + 1);
    }
}

/// The pieces of a path between its `/` separators, from `at` on.
pub open spec fn pieces_from(s: Seq<char>, at: int) -> Seq<Seq<char>>
    decreases s.len() + 1 - at,
{
    if at < 0 || at > s.len() {
        seq![]
    } else {
        proof {
            lemma_next_slash(s, at);
        }
        seq![s.subrange(at, next_slash(s, at))] + pieces_from(s, next_slash(s, at) + 1)
    }
}

/// The pieces that name something: not empty, and not `.`.
pub open spec fn named_pieces(p: Seq<Seq<char>>) -> Seq<Seq<char>>
    decreases p.len(),
{
    if p.len() == 0 {
        seq![]
    } else if p.last().len() > 0 && p.last() != seq!['.'] {
        named_pieces(p.drop_last()).push(p.last())
    } else {
        named_pieces(p.drop_last())
    }
}

/// A path as `Path` compares it: whether it starts at the root, whether it
/// starts with `.`, and the names along it, so that a doubled `/`, a `/` at
/// the end and a `.` in the middle make no difference.
pub open spec fn path_components(s: Seq<char>) -> (bool, bool, Seq<Seq<char>>) {
    let rooted = s.len() > 0 && s[0] == '/';
    let pieces = pieces_from(s, if rooted { 1 } else { 0 });
    let here = !rooted && pieces.len() > 0 && pieces[0] == seq!['.'];
    (rooted, here, named_pieces(if here { pieces.drop_first() } else { pieces }))
}

fn path_components_of(s: &[char]) -> (r: (bool, bool, Vec<Vec<char>>))
    ensures
        (r.0, r.1, char_texts(r.2@)) == path_components(s@),
{
    let rooted = s.len() > 0 && s[0] == '/';
    let start: usize = if rooted { 1 } else { 0 };
    let mut pieces: Vec<Vec<char>> = Vec::new();
    let mut at: usize = start;
    let ghost all = pieces_from(s@, start as int);
    assert(char_texts(pieces@) =~= Seq::<Seq<char>>::empty());
    loop
        invariant_except_break
            all == char_texts(pieces@) + pieces_from(s@, at as int),
        invariant
            at <= s@.len(),
            all == pieces_from(s@, start as int),
        ensures
            all == char_texts(pieces@),
        decreases s@.len() - at,
    {
        let mut e = at;
        while e < s.len() && s[e] != '/'
            invariant
                at <= e <= s@.len(),
                next_slash(s@, at as int) == next_slash(s@, e as int),
            decreases s@.len() - e,
        {
            e = e + 1;
        }
        proof {
            lemma_next_slash(s@, at as int);
        }
        let piece = slice_of(s, at, e);
        let ghost before = char_texts(pieces@);
        pieces.push(piece);
        assert(char_texts(pieces@) == before.push(piece@));
        if e == s.len() {
            assert(pieces_from(s@, e + 1) == Seq::<Seq<char>>::empty());
            assert(all =~= char_texts(pieces@));
            break;
        }
        assert(all =~= char_texts(pieces@) + pieces_from(s@, e + 1));
        at = e + 1;
    }
    let dot: Vec<char> = vec!['.'];
    assert(dot@ == seq!['.']);
    let here = !rooted && pieces.len() > 0 && same(pieces[0].as_slice(), dot.as_slice());
    let first: usize = if here { 1 } else { 0 };
    let ghost rest = if here { all.drop_first() } else { all };
    proof {
        if pieces@.len() > 0 {
            assert(all[0] == pieces@[0]@);
        }
        assert(all.len() == pieces@.len());
        assert(rest =~= all.skip(first as int));
    }
    let mut names: Vec<Vec<char>> = Vec::new();
    let mut k: usize = first;
    assert(rest.take(0) =~= Seq::<Seq<char>>::empty());
    assert(char_texts(names@) =~= Seq::<Seq<char>>::empty());
    while k < pieces.len()
        invariant
            first <= k <= pieces@.len(),
            dot@ == seq!['.'],
            all == char_texts(pieces@),
            rest == all.skip(first as int),
            char_texts(names@) == named_pieces(rest.take(k - first)),
        decreases pieces@.len() - k,
    {
        let ghost t = rest.take(k + 1 - first);
        assert(t.drop_last() =~= rest.take(k - first));
        assert(t.last() == pieces@[k as int]@);
        assert(pieces@[k as int]@.len() == pieces[k as int].len());
        let ok = pieces[k].len() > 0 && !same(pieces[k].as_slice(), dot.as_slice());
        if ok {
            let ghost before = char_texts(names@);
            names.push(pieces[k].clone());
            assert(char_texts(names@) == before.push(pieces@[k as int]@));
        }
        k = k + 1;
    }
    assert(rest.take(pieces@.len() - first) =~= rest);
    (rooted, here, names)
}

/// Whether two paths name the same place, compared as `Path` compares them.
pub open spec fn same_path(a: Seq<char>, b: Seq<char>) -> bool {
    path_components(a) == path_components(b)
}

fn same_path_of(a: &[char], b: &[char]) -> (r: bool)
    ensures
        r == same_path(a@, b@),
{
    let (ra, ha, na) = path_components_of(a);
    let (rb, hb, nb) = path_components_of(b);
    let ghost pa = path_components(a@);
    let ghost pb = path_components(b@);
    assert(pa.0 == ra && pa.1 == ha && pa.2 == char_texts(na@));
    assert(pb.0 == rb && pb.1 == hb && pb.2 == char_texts(nb@));
    if ra != rb || ha != hb || na.len() != nb.len() {
        assert(char_texts(na@).len() == na@.len() && char_texts(nb@).len() == nb@.len());
        assert(pa != pb);
        return false;
    }
    let mut i: usize = 0;
    while i < na.len()
        invariant
            i <= na@.len() == nb@.len(),
            pa == path_components(a@),
            pb == path_components(b@),
            pa.2 == char_texts(na@),
            pb.2 == char_texts(nb@),
            pa.0 == pb.0 && pa.1 == pb.1,
            forall|k: int| 0 <= k < i ==> char_texts(na@)[k] == char_texts(nb@)[k],
        decreases na@.len() - i,
    {
        if !same(na[i].as_slice(), nb[i].as_slice()) {
            assert(char_texts(na@)[i as int] != char_texts(nb@)[i as int]);
            assert(char_texts(na@) != char_texts(nb@));
            assert(pa != pb);
            return false;
        }
        i = i + 1;
    }
    assert(char_texts(na@) =~= char_texts(nb@));
    assert(pa == pb);
    true
}

/// Where state lives when nothing says otherwise: the app's own
/// `<data root>/state` for an installed runtime (`<data root>/runtime`), and
/// `.ragnarokmac` inside any other tree. `same` is the canonical comparison
/// of the two paths when both exist; otherwise they are compared as `Path`
/// compares them, name by name.
pub open spec fn default_state_of(root: Seq<char>, data_root: Seq<char>, same: Option<bool>) -> Seq<char> {
    let installed = match same {
        Some(b) => b,
        None => same_path(root, joined_path(data_root, "runtime"@)),
    };
    if installed {
        joined_path(data_root, "state"@)
    } else {
        joined_path(root, ".ragnarokmac"@)
    }
}

pub fn default_state(root: &str, data_root: &str, same_as_installed: Option<bool>) -> (out: String)
    ensures
        out@ == default_state_of(root@, data_root@, same_as_installed),
{
    let installed = match same_as_installed {
        Some(b) => b,
        None => {
            let runtime = join_path(data_root, "runtime");
            same_path_of(chars_of(root).as_slice(), chars_of(runtime.as_str()).as_slice())
        },
    };
    if installed {
        join_path(data_root, "state")
    } else {
        join_path(root, ".ragnarokmac")
    }
}

pub open spec fn text_or(o: Option<String>, fallback: Seq<char>) -> Seq<char> {
    match o {
        Some(s) => s@,
        None => fallback,
    }
}

pub open spec fn no_docker_message() -> Seq<char> {
    "no docker client found (bundled or installed)"@
}

/// Whether a configuration can be had: only a missing docker client stops
/// one, and only when docker is required.
pub open spec fn loads(env: Surroundings, require_docker: bool) -> bool {
    !(require_docker && env.docker is None)
}

/// The configuration for runtime tree `root`, given what the machine says.
pub open spec fn configured(c: Config, root: Seq<char>, env: Surroundings) -> bool {
    &&& c.root@ == root
    &&& c.state@ == text_or(env.state_override, default_state_of(root, env.data_root@, env.same_as_installed))
    &&& c.nebula_home@ == text_or(env.nebula_home_override, joined_path(env.data_root@, "nebula"@))
    &&& c.nebula@ == text_or(env.nebula_bin, joined_path(root, "bin/nebula"@ + env.exe_suffix@))
    &&& c.docker@ == text_or(env.docker, joined_path(root, "bin/docker-slim"@ + env.exe_suffix@))
    &&& c.image@ == text_or(env.image_override, "ragnarokmac/rathena:"@ + crate::packetver::default_version())
    &&& c.db_image@ == text_or(env.db_image_override, "ragnarokmac/mariadb:11.4"@)
    &&& c.app_version == env.app_version
}

fn text_or_else(o: Option<String>, fallback: String) -> (out: String)
    ensures
        out@ == text_or(o, fallback@),
{
    match o {
        Some(s) => s,
        None => fallback,
    }
}

fn load_inner(root: String, env: Surroundings, require_docker: bool) -> (r: Result<Config, String>)
    ensures
        r is Ok <==> loads(env, require_docker),
        r matches Ok(c) ==> configured(c, root@, env),
        r matches Err(e) ==> e@ == no_docker_message(),
{
    if require_docker && env.docker.is_none() {
        return Err(string_of(chars_of("no docker client found (bundled or installed)").as_slice()));
    }
    let ghost e = env;
    let state_default = default_state(root.as_str(), env.data_root.as_str(), env.same_as_installed);
    let state = text_or_else(env.state_override, state_default);
    let nebula_home = text_or_else(env.nebula_home_override, join_path(env.data_root.as_str(), "nebula"));
    let mut nebula_rel = chars_of("bin/nebula");
    push_all(&mut nebula_rel, chars_of(env.exe_suffix.as_str()).as_slice());
    let nebula = text_or_else(env.nebula_bin, join_path(root.as_str(), string_of(nebula_rel.as_slice()).as_str()));
    let mut docker_rel = chars_of("bin/docker-slim");
    push_all(&mut docker_rel, chars_of(env.exe_suffix.as_str()).as_slice());
    let docker = text_or_else(env.docker, join_path(root.as_str(), string_of(docker_rel.as_slice()).as_str()));
    let mut image_default = chars_of("ragnarokmac/rathena:");
    push_all(&mut image_default, chars_of(crate::packetver::default().as_str()).as_slice());
    let image = text_or_else(env.image_override, string_of(image_default.as_slice()));
    let db_image = text_or_else(env.db_image_override, string_of(chars_of("ragnarokmac/mariadb:11.4").as_slice()));
    let c = Config {
        root,
        state,
        nebula_home,
        nebula,
        docker,
        image,
        db_image,
        app_version: env.app_version,
    };
    assert(configured(c, c.root@, e));
    Ok(c)
}

impl Config {
    /// The configuration for runtime tree `root`: refused only when no
    /// docker client can be found.
    pub fn load(root: String, env: Surroundings) -> (r: Result<Config, String>)
        ensures
            r is Ok <==> loads(env, true),
            r matches Ok(c) ==> configured(c, root@, env),
            r matches Err(e) ==> e@ == no_docker_message(),
    {
        load_inner(root, env, true)
    }

    /// The configuration asset assembly works from. It never invokes the
    /// docker client, so it is had without one.
    pub fn load_for_assets(root: String, env: Surroundings) -> (r: Result<Config, String>)
        ensures
            r is Ok,
            r matches Ok(c) ==> configured(c, root@, env),
    {
        load_inner(root, env, false)
    }

    /// The directory that marks a lifecycle operation in progress.
    pub fn lock_dir(&self) -> (out: String)
        ensures
            out@ == joined_path(self.state@, ".stack.lock"@),
    {
        join_path(self.state.as_str(), ".stack.lock")
    }
}

/// Where the player's answers to the mods' settings live: one file for every
/// mod, in the state directory.
pub fn settings_path(state: &str) -> (out: String)
    ensures
        out@ == joined_path(state@, "mod-settings.json"@),
{
    join_path(state, "mod-settings.json")
}

/// Where the last start's verdict on the mods' tables is kept, beside the
/// settings rather than inside the tree rebuilt on every start.
pub fn report_path(state: &str) -> (out: String)
    ensures
        out@ == joined_path(state@, "mod-load-report.json"@),
{
    join_path(state, "mod-load-report.json")
}

} // verus!
