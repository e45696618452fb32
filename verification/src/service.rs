//! Service definitions: the persisted data model, argument materialization
//! with `{KEY}` placeholders, and executable path handling.

use vstd::prelude::*;

use crate::text::{replace_all, replace_seq, str_eq};

verus! {

/// One key/value pair of a service's environment map.
pub struct EnvPair {
    pub key: String,
    pub value: String,
}

impl View for EnvPair {
    type V = (Seq<char>, Seq<char>);

    open spec fn view(&self) -> (Seq<char>, Seq<char>) {
        (self.key@, self.value@)
    }
}

impl Clone for EnvPair {
    fn clone(&self) -> (r: Self)
        ensures
            r == *self,
    {
        EnvPair { key: self.key.clone(), value: self.value.clone() }
    }
}

/// Platform launch options: a raw process creation flag bitmask.
#[derive(Clone, Copy, PartialEq, Eq, Structural, Debug)]
pub struct WindowsOptions {
    pub creation_flags: Option<u32>,
}

/// The mathematical value of a [`ServiceDefinition`]: every text field as a
/// character sequence.
#[verifier::ext_equal]
pub ghost struct ConfigView {
    pub id: Seq<char>,
    pub name: Seq<char>,
    pub exec_path: Seq<char>,
    pub working_dir: Option<Seq<char>>,
    pub args: Seq<Seq<char>>,
    pub env: Option<Seq<(Seq<char>, Seq<char>)>>,
    pub windows: Option<WindowsOptions>,
    pub autorun: Option<bool>,
    pub url: Option<String>,
}

/// An externally defined service: an immutable-until-replaced record keyed
/// by its unique `id`.
pub struct ServiceConfig {
    pub id: String,
    pub name: String,
    pub exec_path: String,
    pub working_dir: Option<String>,
    pub args: Vec<String>,
    pub env: Option<Vec<EnvPair>>,
    pub windows: Option<WindowsOptions>,
    pub autorun: Option<bool>,
    pub url: Option<String>,
}

impl View for ServiceConfig {
    type V = ConfigView;

    open spec fn view(&self) -> ConfigView {
        ConfigView {
            id: self.id@,
            name: self.name@,
            exec_path: self.exec_path@,
            working_dir: match self.working_dir {
                Some(d) => Some(d@),
                None => None,
            },
            args: self.args@.map_values(|a: String| a@),
            env: match self.env {
                Some(v) => Some(v@.map_values(|p: EnvPair| p@)),
                None => None,
            },
            windows: self.windows,
            autorun: self.autorun,
            url: self.url,
        }
    }
}

pub(crate) fn clone_opt_string(s: &Option<String>) -> (r: Option<String>)
    ensures
        r == *s,
{
    match s {
        Some(x) => Some(x.clone()),
        None => None,
    }
}

pub(crate) fn clone_string_vec(v: &Vec<String>) -> (r: Vec<String>)
    ensures
        r@ == v@,
{
    let mut out: Vec<String> = Vec::new();
    let mut i: usize = 0;
    while i < v.len()
        invariant
            i <= v@.len(),
            out@ == v@.take(i as int),
        decreases v@.len() - i,
    {
        out.push(v[i].clone());
        proof {
            assert(out@ =~= v@.take(i + 1));
        }
        i = i + 1;
    }
    proof {
        assert(v@.take(v@.len() as int) =~= v@);
    }
    out
}

fn clone_env(v: &Option<Vec<EnvPair>>) -> (r: Option<Vec<EnvPair>>)
    ensures
        match *v {
            Some(inner) => r matches Some(ri) && ri@ == inner@,
            None => r is None,
        },
{
    match v {
        None => None,
        Some(inner) => {
            let mut out: Vec<EnvPair> = Vec::new();
            let mut i: usize = 0;
            while i < inner.len()
                invariant
                    i <= inner@.len(),
                    out@ == inner@.take(i as int),
                decreases inner@.len() - i,
            {
                out.push(inner[i].clone());
                proof {
                    assert(out@ =~= inner@.take(i + 1));
                }
                i = i + 1;
            }
            proof {
                assert(inner@.take(inner@.len() as int) =~= inner@);
            }
            Some(out)
        },
    }
}

impl Clone for ServiceConfig {
    fn clone(&self) -> (r: Self)
        ensures
            r@ == self@,
    {
        let r = ServiceConfig {
            id: self.id.clone(),
            name: self.name.clone(),
            exec_path: self.exec_path.clone(),
            working_dir: clone_opt_string(&self.working_dir),
            args: clone_string_vec(&self.args),
            env: clone_env(&self.env),
            windows: self.windows,
            autorun: self.autorun,
            url: clone_opt_string(&self.url),
        };
        proof {
            assert(r@ =~~= self@);
        }
        r
    }
}

/// The persisted supervisor state: global settings plus the ordered service
/// definitions.
pub struct ServicesFile {
    pub listen: Option<String>,
    pub keep_alive: Option<u64>,
    pub services: Vec<ServiceConfig>,
}

/// The `{KEY}` placeholder text for an environment key.
pub open spec fn placeholder_spec(k: Seq<char>) -> Seq<char> {
    seq!['{'] + k + seq!['}']
}

/// The result of substituting, pair after pair, each environment entry's
/// placeholder by its value. Unresolved placeholders stay verbatim.
pub open spec fn subst_env(arg: Seq<char>, env: Seq<(Seq<char>, Seq<char>)>) -> Seq<char>
    decreases env.len(),
{
    if env.len() == 0 {
        arg
    } else {
        subst_env(replace_seq(arg, placeholder_spec(env[0].0), env[0].1), env.skip(1))
    }
}

/// The environment entries of a definition, as pairs of character
/// sequences; an absent map contributes no pairs.
pub open spec fn env_pairs(env: Option<Vec<EnvPair>>) -> Seq<(Seq<char>, Seq<char>)> {
    match env {
        Some(v) => v@.map_values(|p: EnvPair| p@),
        None => Seq::empty(),
    }
}

fn make_placeholder(k: &str) -> (r: String)
    ensures
        r@ == placeholder_spec(k@),
{
    proof {
        reveal_strlit("{");
        reveal_strlit("}");
    }
    let mut out = String::from_str("{");
    out.append(k);
    out.append("}");
    proof {
        assert(out@ =~= placeholder_spec(k@));
    }
    out
}

/// Materializes a service's argument list: in every argument template each
/// `{KEY}` occurrence is replaced by the environment map's value for `KEY`.
pub fn build_args(args: &Vec<String>, env: &Option<Vec<EnvPair>>) -> (r: Vec<String>)
    ensures
        r@.len() == args@.len(),
        forall|k: int|
            0 <= k < args@.len() ==> #[trigger] r@[k]@ == subst_env(args@[k]@, env_pairs(*env)),
{
    let ghost pairs = env_pairs(*env);
    let mut out: Vec<String> = Vec::new();
    let mut k: usize = 0;
    while k < args.len()
        invariant
            k <= args@.len(),
            out@.len() == k,
            forall|j: int| 0 <= j < k ==> #[trigger] out@[j]@ == subst_env(args@[j]@, pairs),
            pairs == env_pairs(*env),
        decreases args@.len() - k,
    {
        let mut cur: String = args[k].clone();
        match env {
            Some(pairs_vec) => {
                let mut j: usize = 0;
                proof {
                    assert(pairs.skip(0) =~= pairs);
                }
                while j < pairs_vec.len()
                    invariant
                        j <= pairs_vec@.len(),
                        pairs == env_pairs(Some(*pairs_vec)),
                        pairs.len() == pairs_vec@.len(),
                        subst_env(args@[k as int]@, pairs) == subst_env(cur@, pairs.skip(j as int)),
                        k < args@.len(),
                    decreases pairs_vec@.len() - j,
                {
                    let pat = make_placeholder(pairs_vec[j].key.as_str());
                    let ghost before = cur@;
                    cur = replace_all(cur.as_str(), pat.as_str(), pairs_vec[j].value.as_str());
                    proof {
                        assert(pairs.skip(j as int)[0] == pairs_vec@[j as int]@);
                        assert(cur@ == replace_seq(
                            before,
                            placeholder_spec(pairs.skip(j as int)[0].0),
                            pairs.skip(j as int)[0].1,
                        ));
                        assert(pairs.skip(j as int).skip(1) =~= pairs.skip(j + 1));
                    }
                    j = j + 1;
                }
                proof {
                    assert(pairs.skip(pairs.len() as int) =~= Seq::<
                        (Seq<char>, Seq<char>),
                    >::empty());
                }
            },
            None => {
                proof {
                    assert(pairs.len() == 0);
                    assert(pairs.skip(0) =~= pairs);
                }
            },
        }
        out.push(cur);
        k = k + 1;
    }
    out
}

/// Whether a character separates path components.
pub open spec fn is_sep(c: char) -> bool {
    c == '/' || c == '\\'
}

fn is_sep_char(c: char) -> (r: bool)
    ensures
        r == is_sep(c),
{
    c == '/' || c == '\\'
}

/// The trailing run of non-separator characters: what stands after the
/// last separator, or the whole text when it has none.
pub open spec fn tail_component(s: Seq<char>) -> Seq<char>
    decreases s.len(),
{
    if s.len() == 0 {
        s
    } else if is_sep(s.last()) {
        Seq::empty()
    } else {
        tail_component(s.drop_last()).push(s.last())
    }
}

/// The file-name component of a path: trailing separators and trailing
/// `.` components are skipped; a path whose last real component is `..`,
/// or that holds nothing but separators, has none.
pub open spec fn file_name_of(s: Seq<char>) -> Option<Seq<char>>
    decreases s.len(),
{
    if s.len() == 0 {
        None
    } else if is_sep(s.last()) {
        file_name_of(s.drop_last())
    } else if tail_component(s) == seq!['.'] {
        file_name_of(s.drop_last())
    } else if tail_component(s) == seq!['.', '.'] {
        None
    } else {
        Some(tail_component(s))
    }
}

/// The file name of an executable path, with the whole path as the
/// fallback when no file-name component exists (empty text, a bare root,
/// a path ending in `..`).
pub open spec fn basename_spec(s: Seq<char>) -> Seq<char> {
    match file_name_of(s) {
        Some(c) => c,
        None => s,
    }
}

proof fn lemma_tail_component_from(s: Seq<char>, j: int)
    requires
        0 <= j <= s.len(),
        forall|k: int| j <= k < s.len() ==> !is_sep(s[k]),
        j == 0 || is_sep(s[j - 1]),
    ensures
        tail_component(s) == s.skip(j),
    decreases s.len(),
{
    if s.len() == 0 {
        assert(tail_component(s) =~= s.skip(j));
    } else if j == s.len() {
        assert(is_sep(s.last()));
        assert(tail_component(s) =~= s.skip(j));
    } else {
        assert(!is_sep(s.last()));
        lemma_tail_component_from(s.drop_last(), j);
        assert(tail_component(s) == s.drop_last().skip(j).push(s.last()));
        assert(s.drop_last().skip(j).push(s.last()) =~= s.skip(j));
    }
}

/// The file name of an executable path: its last path component, skipping
/// trailing separators and `.` components; the whole path stands in when
/// no component remains or the last one is `..`.
pub fn exec_file_name(exec_path: &str) -> (r: &str)
    ensures
        r@ == basename_spec(exec_path@),
{
    let n = exec_path.unicode_len();
    let ghost whole = exec_path@;
    let mut end: usize = n;
    proof {
        assert(whole.take(n as int) =~= whole);
    }
    loop
        invariant
            n == whole.len(),
            whole == exec_path@,
            end <= n,
            file_name_of(whole) == file_name_of(whole.take(end as int)),
        decreases end,
    {
        let ghost end0 = end;
        while end > 0 && is_sep_char(exec_path.get_char(end - 1))
            invariant
                n == whole.len(),
                whole == exec_path@,
                end <= end0 <= n,
                file_name_of(whole) == file_name_of(whole.take(end as int)),
            decreases end,
        {
            proof {
                assert(whole.take(end as int).last() == whole[end - 1]);
                assert(whole.take(end as int).drop_last() =~= whole.take(end - 1));
            }
            end = end - 1;
        }
        if end == 0 {
            proof {
                assert(whole.take(0) =~= Seq::<char>::empty());
                assert(file_name_of(whole) is None);
            }
            return exec_path;
        }
        let mut start: usize = end;
        while start > 0 && !is_sep_char(exec_path.get_char(start - 1))
            invariant
                n == whole.len(),
                whole == exec_path@,
                start <= end <= n,
                forall|k: int| start <= k < end ==> !is_sep(whole[k]),
            decreases start,
        {
            start = start - 1;
        }
        let ghost t = whole.take(end as int);
        proof {
            lemma_tail_component_from(t, start as int);
            assert(t.skip(start as int) =~= whole.subrange(start as int, end as int));
            assert(tail_component(t) == whole.subrange(start as int, end as int));
            assert(whole.subrange(start as int, end as int).len() == end - start);
            assert(!is_sep(t.last()));
        }
        if end - start == 1 && exec_path.get_char(start) == '.' {
            proof {
                assert(whole.subrange(start as int, end as int) =~= seq!['.']);
                assert(t.drop_last() =~= whole.take(end - 1));
            }
            end = end - 1;
        } else if end - start == 2 && exec_path.get_char(start) == '.' && exec_path.get_char(
            start + 1,
        ) == '.' {
            proof {
                assert(whole.subrange(start as int, end as int) =~= seq!['.', '.']);
                assert(file_name_of(whole) is None);
            }
            return exec_path;
        } else {
            let found = exec_path.substring_char(start, end);
            proof {
                assert(tail_component(t) != seq!['.']) by {
                    if tail_component(t) == seq!['.'] {
                        assert(whole.subrange(start as int, end as int) == seq!['.']);
                        assert(end - start == 1);
                        assert(whole.subrange(start as int, end as int)[0] == whole[start as int]);
                        assert(whole[start as int] == '.');
                    }
                }
                assert(tail_component(t) != seq!['.', '.']) by {
                    if tail_component(t) == seq!['.', '.'] {
                        assert(whole.subrange(start as int, end as int) == seq!['.', '.']);
                        assert(end - start == 2);
                        assert(whole.subrange(start as int, end as int)[0] == whole[start as int]);
                        assert(whole.subrange(start as int, end as int)[1] == whole[start + 1]);
                        assert(whole[start as int] == '.' && whole[start + 1] == '.');
                    }
                }
                assert(file_name_of(whole) == Some(tail_component(t)));
                assert(found@ == tail_component(t));
            }
            return found;
        }
    }
}

/// Joining a working directory and an executable path: a path that begins
/// with a separator stands alone; otherwise the two are joined with one
/// separator between them.
pub open spec fn join_path(dir: Seq<char>, file: Seq<char>) -> Seq<char> {
    if file.len() > 0 && is_sep(file[0]) {
        file
    } else if dir.len() == 0 {
        file
    } else if is_sep(dir.last()) {
        dir + file
    } else {
        dir + seq!['/'] + file
    }
}

/// Resolves the path a service is launched from: its executable joined to
/// its working directory when one is configured.
pub fn resolve_exec_path(working_dir: &Option<String>, exec: &str) -> (r: String)
    ensures
        match *working_dir {
            Some(d) => r@ == join_path(d@, exec@),
            None => r@ == exec@,
        },
{
    match working_dir {
        None => {
            let r = String::from_str(exec);
            r
        },
        Some(d) => {
            let flen = exec.unicode_len();
            if flen > 0 && is_sep_char(exec.get_char(0)) {
                return String::from_str(exec);
            }
            let dlen = d.unicode_len();
            if dlen == 0 {
                return String::from_str(exec);
            }
            let mut out = d.clone();
            if !is_sep_char(d.as_str().get_char(dlen - 1)) {
                proof {
                    reveal_strlit("/");
                }
                out.append("/");
            }
            out.append(exec);
            proof {
                assert(out@ =~= join_path(d@, exec@));
            }
            out
        },
    }
}

/// An order list as id character sequences.
pub open spec fn order_view(order: Seq<String>) -> Seq<Seq<char>> {
    order.map_values(|s: String| s@)
}

/// Looks an id up in an order list.
pub fn order_contains(order: &Vec<String>, id: &str) -> (r: bool)
    ensures
        r == order_view(order@).contains(id@),
{
    let mut i: usize = 0;
    while i < order.len()
        invariant
            i <= order@.len(),
            forall|j: int| 0 <= j < i ==> order@[j]@ != id@,
        decreases order@.len() - i,
    {
        if str_eq(order[i].as_str(), id) {
            proof {
                assert(order_view(order@)[i as int] == id@);
            }
            return true;
        }
        i = i + 1;
    }
    proof {
        let m = order_view(order@);
        assert(forall|j: int| 0 <= j < m.len() ==> m[j] != id@);
    }
    false
}

} // verus!
