//! The command line that starts the NLP sidecar process.

use vstd::prelude::*;

use crate::config::NlpSidecarConfig;
use crate::error::CommError;
use crate::morphology::{runs_acc, runs_of};
use crate::strings::{chars_of, is_white_space, is_white_space_exec, owned, string_of, views};

verus! {

/// Chars that `str::split_whitespace` keeps inside a word.
pub open spec fn not_white_space() -> spec_fn(char) -> bool {
    |c: char| !is_white_space(c)
}

/// The sidecar's program and arguments: the white-space separated words of
/// `python` (the first is the program), then `script`, `--profile
/// <profile>`, `--device <device>` and, in mock mode, `--mock`; `None`
/// when `python` has no word.
pub open spec fn sidecar_args(
    python: Seq<char>,
    script: Seq<char>,
    profile: Seq<char>,
    device: Seq<char>,
    mock: bool,
) -> Option<(Seq<char>, Seq<Seq<char>>)> {
    let words = runs_of(python, not_white_space());
    if words.len() == 0 {
        None
    } else {
        Some(
            (
                words[0],
                words.drop_first() + seq![script, "--profile"@, profile, "--device"@, device] + (
                if mock {
                    seq!["--mock"@]
                } else {
                    seq![]
                }),
            ),
        )
    }
}

/// The white-space separated words of `s`.
fn words_of(s: &str) -> (r: Vec<String>)
    ensures
        views(r@) == runs_of(s@, not_white_space()),
{
    let v = chars_of(s);
    let ghost keep = not_white_space();
    let mut done: Vec<String> = Vec::new();
    let mut cur: Vec<char> = Vec::new();
    let mut k: usize = 0;
    while k < v.len()
        invariant
            k <= v.len(),
            v@ == s@,
            keep == not_white_space(),
            (views(done@), cur@) == runs_acc(v@, keep, k as int),
        decreases v.len() - k,
    {
        let c = v[k];
        if !is_white_space_exec(c) {
            cur.push(c);
        } else if cur.len() > 0 {
            let ghost d = views(done@);
            done.push(string_of(&cur));
            assert(views(done@) =~= d.push(cur@));
            cur = Vec::new();
        }
        k = k + 1;
    }
    if cur.len() > 0 {
        let ghost d = views(done@);
        done.push(string_of(&cur));
        assert(views(done@) =~= d.push(cur@));
    }
    done
}

/// The program and arguments that start the sidecar for `cfg` (`mock`
/// adds `--mock`, the deterministic mode), or the error for an empty
/// `python` command.
pub fn sidecar_command(cfg: &NlpSidecarConfig, mock: bool) -> (r: Result<(String, Vec<String>), CommError>)
    ensures
        match sidecar_args(cfg.python@, cfg.script@, cfg.profile@, cfg.device@, mock) {
            Some((p, a)) => r matches Ok((rp, ra)) && rp@ == p && views(ra@) == a,
            None => r matches Err(CommError::Nlp(m)) && m@ == "empty python command"@,
        },
{
    let mut words = words_of(cfg.python.as_str());
    if words.len() == 0 {
        return Err(CommError::Nlp(owned("empty python command")));
    }
    let ghost w = views(words@);
    let program = words.remove(0);
    assert(views(words@) =~= w.drop_first());
    let ghost base = views(words@);
    words.push(cfg.script.clone());
    words.push(owned("--profile"));
    words.push(cfg.profile.clone());
    words.push(owned("--device"));
    words.push(cfg.device.clone());
    assert(views(words@) =~= base + seq![
        cfg.script@,
        "--profile"@,
        cfg.profile@,
        "--device"@,
        cfg.device@,
    ]);
    if mock {
        let ghost before = views(words@);
        words.push(owned("--mock"));
        assert(views(words@) =~= before + seq!["--mock"@]);
    } else {
        assert(views(words@) =~= views(words@) + Seq::<Seq<char>>::empty());
    }
    Ok((program, words))
}

} // verus!
