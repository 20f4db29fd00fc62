//! The embedded command session: a virtual working directory, an
//! append-only transcript of prompt and result lines, and the input buffer
//! bound to the command entry surface.
//!
//! The session itself never touches the filesystem and never spawns a
//! process. Submitting a line parses it and tells the caller what outside
//! work is owed: checking a directory-change target against the real
//! filesystem, or running an external command. The caller reports the
//! outcome back, and the session appends the result line.

use vstd::prelude::*;
use vstd::string::StrSliceExecFns;
use vstd::string::StringExecFns;

use crate::tree::name_of;

verus! {

/// The whitespace characters on which a command line is split.
pub open spec fn is_ws(c: char) -> bool {
    c == ' ' || c == '\t' || c == '\n' || c == '\r'
}

/// The separator family used by the splitter: whitespace for command
/// lines, the path separator for directory-change targets.
pub open spec fn sep_fn(ws: bool) -> spec_fn(char) -> bool {
    if ws {
        |c: char| is_ws(c)
    } else {
        |c: char| c == '/'
    }
}

/// The length of the maximal leading run of non-separator characters.
pub open spec fn run_len(s: Seq<char>, sep: spec_fn(char) -> bool) -> nat
    decreases s.len(),
{
    if s.len() == 0 || sep(s[0]) {
        0
    } else {
        1 + run_len(s.drop_first(), sep)
    }
}

/// The leading run never reaches past the end of the sequence.
pub proof fn lemma_run_len_le(s: Seq<char>, sep: spec_fn(char) -> bool)
    ensures
        run_len(s, sep) <= s.len(),
    decreases s.len(),
{
    if s.len() > 0 && !sep(s[0]) {
        lemma_run_len_le(s.drop_first(), sep);
    }
}

#[via_fn]
proof fn split_parts_dec(s: Seq<char>, sep: spec_fn(char) -> bool) {
    if s.len() > 0 && !sep(s[0]) {
        lemma_run_len_le(s, sep);
    }
}

/// The non-empty maximal runs of non-separator characters, in order:
/// a literal split that keeps no empty parts.
pub open spec fn split_parts(s: Seq<char>, sep: spec_fn(char) -> bool) -> Seq<Seq<char>>
    decreases s.len(),
    via split_parts_dec
{
    if s.len() == 0 {
        Seq::empty()
    } else if sep(s[0]) {
        split_parts(s.drop_first(), sep)
    } else {
        seq![s.take(run_len(s, sep) as int)] + split_parts(s.skip(run_len(s, sep) as int), sep)
    }
}

/// The whitespace-delimited tokens of a command line; the first is the
/// command name, the rest are its arguments.
pub open spec fn tokens_of(s: Seq<char>) -> Seq<Seq<char>> {
    split_parts(s, sep_fn(true))
}

/// The slash-delimited segments of a path argument.
pub open spec fn path_segs(s: Seq<char>) -> Seq<Seq<char>> {
    split_parts(s, sep_fn(false))
}

/// A run of exactly the first `m` characters: none of them separates, and
/// the run ends at `m`.
pub proof fn lemma_run_len(s: Seq<char>, sep: spec_fn(char) -> bool, m: int)
    requires
        0 <= m <= s.len(),
        forall|k: int| 0 <= k < m ==> !sep(s[k]),
        m == s.len() || sep(s[m]),
    ensures
        run_len(s, sep) == m,
    decreases m,
{
    if m > 0 {
        let t = s.drop_first();
        assert(forall|k: int| 0 <= k < m - 1 ==> t[k] == s[k + 1]);
        lemma_run_len(t, sep, m - 1);
    }
}

/// One resolution step of a path segment against a base path: `.` stays,
/// `..` goes to the parent (the root is its own parent), anything else
/// descends.
pub open spec fn step_seg(base: Seq<Seq<char>>, seg: Seq<char>) -> Seq<Seq<char>> {
    if seg == seq!['.'] {
        base
    } else if seg == seq!['.', '.'] {
        if base.len() > 0 {
            base.drop_last()
        } else {
            base
        }
    } else {
        base.push(seg)
    }
}

/// Resolves a sequence of path segments against a base path, left to
/// right.
pub open spec fn apply_segs(base: Seq<Seq<char>>, segs: Seq<Seq<char>>) -> Seq<Seq<char>>
    decreases segs.len(),
{
    if segs.len() == 0 {
        base
    } else {
        apply_segs(step_seg(base, segs[0]), segs.drop_first())
    }
}

/// The directory a change-directory target denotes, before the filesystem
/// is asked whether it exists: an absolute target starts over from the
/// root, a relative one is joined onto the base, and `.` and `..` segments
/// are folded away.
pub open spec fn resolve_spec(base: Seq<Seq<char>>, arg: Seq<char>) -> Seq<Seq<char>> {
    if arg.len() > 0 && arg[0] == '/' {
        apply_segs(Seq::empty(), path_segs(arg))
    } else {
        apply_segs(base, path_segs(arg))
    }
}

/// The prompt line recorded for a submitted command: the working
/// directory's final segment in brackets, then the raw command text.
pub open spec fn prompt_line(wd: Seq<Seq<char>>, cmd: Seq<char>) -> Seq<char> {
    seq!['['] + name_of(wd) + seq![']', ' ', '$', ' '] + cmd
}

/// The target a `cd` command names: its first argument, or the root when
/// it has none.
pub open spec fn cd_arg(toks: Seq<Seq<char>>) -> Seq<char> {
    if toks.len() > 1 {
        toks[1]
    } else {
        seq!['/']
    }
}

/// Executable separator test matching `sep_fn`.
fn char_is_sep(ws: bool, c: char) -> (r: bool)
    ensures
        r == sep_fn(ws)(c),
{
    if ws {
        c == ' ' || c == '\t' || c == '\n' || c == '\r'
    } else {
        c == '/'
    }
}

/// Splits a string into its non-empty runs of non-separator characters.
fn split_parts_x(s: &str, ws: bool) -> (v: Vec<String>)
    ensures
        v.deep_view() == split_parts(s@, sep_fn(ws)),
{
    let n = s.unicode_len();
    let mut v: Vec<String> = Vec::new();
    let mut i: usize = 0;
    proof {
        assert(s@.skip(0) =~= s@);
        assert(v.deep_view() =~= Seq::<Seq<char>>::empty());
    }
    while i < n
        invariant
            i <= n,
            n == s@.len(),
            split_parts(s@, sep_fn(ws)) == v.deep_view() + split_parts(
                s@.skip(i as int),
                sep_fn(ws),
            ),
        decreases n - i,
    {
        let c = s.get_char(i);
        if char_is_sep(ws, c) {
            proof {
                assert(s@.skip(i as int).drop_first() =~= s@.skip(i as int + 1));
                assert(s@.skip(i as int)[0] == s@[i as int]);
            }
            i += 1;
        } else {
            let mut j: usize = i + 1;
            while j < n && !char_is_sep(ws, s.get_char(j))
                invariant
                    i < j <= n,
                    n == s@.len(),
                    !sep_fn(ws)(s@[i as int]),
                    forall|k: int| i < k < j ==> !sep_fn(ws)(s@[k]),
                decreases n - j,
            {
                j += 1;
            }
            let t = s.substring_char(i, j).to_owned();
            let ghost vd0 = v.deep_view();
            v.push(t);
            proof {
                let sep = sep_fn(ws);
                let x = s@.skip(i as int);
                assert(forall|k: int| 0 <= k < j - i ==> x[k] == s@[i + k]);
                lemma_run_len(x, sep, j - i);
                assert(x.take(j - i) =~= s@.subrange(i as int, j as int));
                assert(x.skip(j - i) =~= s@.skip(j as int));
                assert(split_parts(x, sep) == seq![s@.subrange(i as int, j as int)]
                    + split_parts(s@.skip(j as int), sep));
                assert(v.deep_view() =~= vd0.push(t@));
                assert(vd0 + split_parts(x, sep) =~= vd0.push(t@) + split_parts(
                    s@.skip(j as int),
                    sep,
                ));
            }
            i = j;
        }
    }
    proof {
        assert(s@.skip(n as int) =~= Seq::<char>::empty());
        assert(v.deep_view() + split_parts(Seq::<char>::empty(), sep_fn(ws)) =~= v.deep_view());
    }
    v
}

/// Copies a path, component by component.
fn clone_path(p: &Vec<String>) -> (r: Vec<String>)
    ensures
        r.deep_view() == p.deep_view(),
{
    let mut r: Vec<String> = Vec::new();
    let mut i: usize = 0;
    while i < p.len()
        invariant
            i <= p@.len(),
            r@.len() == i,
            r.deep_view() =~= p.deep_view().take(i as int),
        decreases p@.len() - i,
    {
        let ghost rd0 = r.deep_view();
        let c = p[i].clone();
        r.push(c);
        proof {
            assert(c == p@[i as int]);
            assert(r.deep_view() =~= rd0.push(p.deep_view()[i as int]));
            assert(r.deep_view() =~= p.deep_view().take(i as int + 1));
        }
        i += 1;
    }
    proof {
        assert(p.deep_view().take(p@.len() as int) =~= p.deep_view());
    }
    r
}

/// Resolves a change-directory target against a base directory, exactly as
/// `resolve_spec` says; the caller still has to ask the filesystem whether
/// the result exists.
pub fn resolve_target(base: &Vec<String>, arg: &str) -> (r: Vec<String>)
    ensures
        r.deep_view() == resolve_spec(base.deep_view(), arg@),
{
    let segs = split_parts_x(arg, false);
    let n = arg.unicode_len();
    let mut r: Vec<String>;
    if n > 0 && arg.get_char(0) == '/' {
        r = Vec::new();
        proof {
            assert(r.deep_view() =~= Seq::<Seq<char>>::empty());
        }
    } else {
        r = clone_path(base);
    }
    let dot = ".".to_owned();
    let dotdot = "..".to_owned();
    proof {
        reveal_strlit(".");
        reveal_strlit("..");
        assert(dot@ =~= seq!['.']);
        assert(dotdot@ =~= seq!['.', '.']);
        assert(segs.deep_view().skip(0) =~= segs.deep_view());
    }
    let mut i: usize = 0;
    while i < segs.len()
        invariant
            i <= segs@.len(),
            segs.deep_view() == path_segs(arg@),
            dot@ == seq!['.'],
            dotdot@ == seq!['.', '.'],
            apply_segs(r.deep_view(), segs.deep_view().skip(i as int)) == resolve_spec(
                base.deep_view(),
                arg@,
            ),
        decreases segs@.len() - i,
    {
        let ghost rest = segs.deep_view().skip(i as int);
        let ghost seg_v = segs.deep_view()[i as int];
        proof {
            assert(rest[0] == seg_v);
            assert(rest.drop_first() =~= segs.deep_view().skip(i as int + 1));
            assert(segs@[i as int]@ == seg_v);
        }
        if segs[i] == dot {
            proof {
                assert(seg_v == seq!['.']);
                assert(step_seg(r.deep_view(), seg_v) == r.deep_view());
            }
        } else if segs[i] == dotdot {
            proof {
                assert(seg_v == seq!['.', '.']);
                assert(seg_v != seq!['.']);
            }
            if r.len() > 0 {
                let ghost rd0 = r.deep_view();
                let _dropped = r.pop();
                proof {
                    assert(r.deep_view() =~= rd0.drop_last());
                    assert(step_seg(rd0, seg_v) == rd0.drop_last());
                }
            } else {
                proof {
                    assert(r.deep_view().len() == 0);
                    assert(step_seg(r.deep_view(), seg_v) == r.deep_view());
                }
            }
        } else {
            proof {
                assert(seg_v != seq!['.']);
                assert(seg_v != seq!['.', '.']);
            }
            let ghost rd0 = r.deep_view();
            let part = segs[i].clone();
            r.push(part);
            proof {
                assert(part == segs@[i as int]);
                assert(r.deep_view() =~= rd0.push(seg_v));
                assert(step_seg(rd0, seg_v) == rd0.push(seg_v));
            }
        }
        i += 1;
    }
    proof {
        assert(segs.deep_view().skip(segs@.len() as int) =~= Seq::<Seq<char>>::empty());
    }
    r
}

/// The outside work a submitted command line asks of the caller.
pub enum SubmitAction {
    /// Nothing to run: the input was empty or whitespace.
    Nothing,
    /// A directory change: check `target` against the filesystem and
    /// report back through `finish_cd`.
    ChangeDir { target: Vec<String> },
    /// An external command: run it and report back through
    /// `finish_command` or `fail_command`.
    RunCommand { program: String, args: Vec<String> },
}

/// The state of the embedded shell. The working directory is a canonical
/// path held as components (the filesystem root is the empty sequence);
/// the transcript grows by appends only.
pub struct ShellSession {
    pub working_directory: Vec<String>,
    pub transcript: Vec<String>,
    pub pending_input: String,
}

impl ShellSession {
    /// A session rooted at the given starting directory, with an empty
    /// transcript and an empty input buffer.
    pub fn new(initial_dir: Vec<String>) -> (s: Self)
        ensures
            s.working_directory == initial_dir,
            s.transcript@.len() == 0,
            s.pending_input@.len() == 0,
    {
        ShellSession {
            working_directory: initial_dir,
            transcript: Vec::new(),
            pending_input: String::new(),
        }
    }

    /// Replaces the input buffer with what the input surface holds now.
    pub fn set_input(&mut self, text: String)
        ensures
            final(self).pending_input == text,
            final(self).working_directory == old(self).working_directory,
            final(self).transcript == old(self).transcript,
    {
        self.pending_input = text;
    }

    /// Submits the input buffer. Whitespace-only input is dropped without
    /// a trace; anything else appends exactly one prompt line right away.
    /// Either way the buffer is cleared and the working directory is
    /// untouched. The returned action says what the caller owes: a `cd`
    /// resolves its target against the working directory, every other
    /// first token names an external program with the remaining tokens as
    /// its arguments.
    pub fn submit(&mut self) -> (action: SubmitAction)
        ensures
            final(self).working_directory == old(self).working_directory,
            final(self).pending_input@ == Seq::<char>::empty(),
            ({
                let toks = tokens_of(old(self).pending_input@);
                let line = prompt_line(
                    old(self).working_directory.deep_view(),
                    old(self).pending_input@,
                );
                &&& toks.len() == 0 ==> final(self).transcript == old(self).transcript
                    && action is Nothing
                &&& toks.len() > 0 ==> final(self).transcript.deep_view()
                    == old(self).transcript.deep_view().push(line)
                &&& (toks.len() > 0 && toks[0] == "cd"@) ==> (action matches
                    SubmitAction::ChangeDir { target } && target.deep_view() == resolve_spec(
                    old(self).working_directory.deep_view(),
                    cd_arg(toks),
                ))
                &&& (toks.len() > 0 && toks[0] != "cd"@) ==> (action matches
                    SubmitAction::RunCommand { program, args } && program@ == toks[0]
                    && args.deep_view() == toks.skip(1))
            }),
    {
        let line = self.pending_input.clone();
        self.pending_input = String::new();
        let toks = split_parts_x(line.as_str(), true);
        if toks.len() == 0 {
            return SubmitAction::Nothing;
        }
        let wd_len = self.working_directory.len();
        let last = if wd_len > 0 {
            self.working_directory[wd_len - 1].clone()
        } else {
            String::new()
        };
        proof {
            if wd_len > 0 {
                assert(last@ == self.working_directory.deep_view()[wd_len - 1]);
            }
            assert(last@ == name_of(self.working_directory.deep_view()));
        }
        let mut prompt = "[".to_owned();
        prompt.append(last.as_str());
        prompt.append("] $ ");
        prompt.append(line.as_str());
        proof {
            reveal_strlit("[");
            reveal_strlit("] $ ");
            assert(("[")@ =~= seq!['[']);
            assert(("] $ ")@ =~= seq![']', ' ', '$', ' ']);
            assert(prompt@ =~= prompt_line(self.working_directory.deep_view(), line@));
        }
        let ghost td0 = self.transcript.deep_view();
        self.transcript.push(prompt);
        proof {
            assert(self.transcript.deep_view() =~= td0.push(
                prompt_line(self.working_directory.deep_view(), line@),
            ));
        }
        let cd = "cd".to_owned();
        proof {
            reveal_strlit("cd");
        }
        if toks[0] == cd {
            let arg: String = if toks.len() > 1 {
                toks[1].clone()
            } else {
                "/".to_owned()
            };
            proof {
                reveal_strlit("/");
                if toks@.len() > 1 {
                    assert(arg@ == toks.deep_view()[1]);
                } else {
                    assert(arg@ =~= seq!['/']);
                }
                assert(arg@ == cd_arg(tokens_of(line@)));
            }
            let target = resolve_target(&self.working_directory, arg.as_str());
            SubmitAction::ChangeDir { target }
        } else {
            let program = toks[0].clone();
            let mut args: Vec<String> = Vec::new();
            let mut i: usize = 1;
            proof {
                assert(args.deep_view() =~= toks.deep_view().subrange(1, 1));
            }
            while i < toks.len()
                invariant
                    1 <= i <= toks@.len(),
                    args.deep_view() =~= toks.deep_view().subrange(1, i as int),
                decreases toks@.len() - i,
            {
                let ghost ad0 = args.deep_view();
                let a = toks[i].clone();
                args.push(a);
                proof {
                    assert(a == toks@[i as int]);
                    assert(args.deep_view() =~= ad0.push(toks.deep_view()[i as int]));
                    assert(args.deep_view() =~= toks.deep_view().subrange(1, i as int + 1));
                }
                i += 1;
            }
            proof {
                assert(toks.deep_view().subrange(1, toks@.len() as int) =~= toks.deep_view().skip(
                    1,
                ));
            }
            SubmitAction::RunCommand { program, args }
        }
    }

    /// Applies the filesystem's answer to a directory change: on success
    /// the canonical directory handed back becomes the working directory
    /// and nothing is logged; on failure the working directory stands and
    /// exactly one error line is appended.
    pub fn finish_cd(&mut self, result: Option<Vec<String>>, error: String)
        ensures
            final(self).pending_input == old(self).pending_input,
            result matches Some(p) ==> final(self).working_directory == p && final(self).transcript
                == old(self).transcript,

            result is None ==> final(self).working_directory == old(self).working_directory
                && final(self).transcript.deep_view() == old(self).transcript.deep_view().push(
                seq!['c', 'd', ':', ' '] + error@,
            ),
    {
        match result {
            Some(p) => {
                self.working_directory = p;
            },
            None => {
                let mut entry = "cd: ".to_owned();
                entry.append(error.as_str());
                proof {
                    reveal_strlit("cd: ");
                    assert(("cd: ")@ =~= seq!['c', 'd', ':', ' ']);
                }
                let ghost td0 = self.transcript.deep_view();
                self.transcript.push(entry);
                proof {
                    assert(self.transcript.deep_view() =~= td0.push(
                        seq!['c', 'd', ':', ' '] + error@,
                    ));
                }
            },
        }
    }

    /// Appends the combined output of a completed external command as one
    /// transcript line: standard output first, standard error after it.
    pub fn finish_command(&mut self, out_text: String, err_text: String)
        ensures
            final(self).pending_input == old(self).pending_input,
            final(self).working_directory == old(self).working_directory,
            final(self).transcript.deep_view() == old(self).transcript.deep_view().push(
                out_text@ + err_text@,
            ),
    {
        let mut entry = out_text;
        entry.append(err_text.as_str());
        let ghost td0 = self.transcript.deep_view();
        self.transcript.push(entry);
        proof {
            assert(self.transcript.deep_view() =~= td0.push(out_text@ + err_text@));
        }
    }

    /// Appends one error line for an external command that could not be
    /// started.
    pub fn fail_command(&mut self, error: String)
        ensures
            final(self).pending_input == old(self).pending_input,
            final(self).working_directory == old(self).working_directory,
            final(self).transcript.deep_view() == old(self).transcript.deep_view().push(
                seq!['E', 'r', 'r', 'o', 'r', ':', ' '] + error@,
            ),
    {
        let mut entry = "Error: ".to_owned();
        entry.append(error.as_str());
        proof {
            reveal_strlit("Error: ");
            assert(("Error: ")@ =~= seq!['E', 'r', 'r', 'o', 'r', ':', ' ']);
        }
        let ghost td0 = self.transcript.deep_view();
        self.transcript.push(entry);
        proof {
            assert(self.transcript.deep_view() =~= td0.push(
                seq!['E', 'r', 'r', 'o', 'r', ':', ' '] + error@,
            ));
        }
    }
}

/// Changing to the filesystem root always lands on the root, and a `..`
/// taken from the root resolves to the root again: the root is its own
/// parent, so neither step can name a missing directory.
pub proof fn lemma_cd_root_then_parent(base: Seq<Seq<char>>)
    ensures
        resolve_spec(base, seq!['/']) == Seq::<Seq<char>>::empty(),
        resolve_spec(Seq::<Seq<char>>::empty(), seq!['.', '.']) == Seq::<Seq<char>>::empty(),
{
    let root: Seq<Seq<char>> = Seq::empty();
    let slash: Seq<char> = seq!['/'];
    let up: Seq<char> = seq!['.', '.'];
    assert(slash[0] == '/');
    assert(sep_fn(false)(slash[0]));
    assert(slash.drop_first() =~= Seq::<char>::empty());
    assert(path_segs(slash) == split_parts(slash.drop_first(), sep_fn(false)));
    assert(split_parts(Seq::<char>::empty(), sep_fn(false)) =~= Seq::<Seq<char>>::empty());
    assert(path_segs(slash) =~= Seq::<Seq<char>>::empty());
    assert(resolve_spec(base, slash) == apply_segs(root, path_segs(slash)));
    assert(apply_segs(root, path_segs(slash)) == root);
    assert(!sep_fn(false)(up[0]));
    lemma_run_len(up, sep_fn(false), 2);
    assert(up.take(2) =~= up);
    assert(up.skip(2) =~= Seq::<char>::empty());
    assert(path_segs(up) =~= seq![up]);
    assert(up != seq!['.']);
    assert(step_seg(root, up) == root);
    assert(seq![up].drop_first() =~= Seq::<Seq<char>>::empty());
    assert(apply_segs(root, seq![up]) == root);
    assert(resolve_spec(root, up) == apply_segs(root, path_segs(up)));
}

} // verus!
