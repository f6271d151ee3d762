//! Completion scripts that know of values read from a file.

use vstd::prelude::*;

use crate::text;

verus! {

/// The shells that a script can be for.
#[derive(Debug, Clone, Copy, PartialEq, Eq, Structural)]
pub enum Shell {
    Bash,
    Elvish,
    Fish,
    PowerShell,
    Zsh,
}

/// The function that completes a file's name after an `@`.
pub open spec fn helper() -> Seq<char> {
    "# Value completion for arguments that accept fugazi's `@file` convention.
# Peels any leading `key=value,` / `@file,` segments (--series and --params are
# `,`-separated), then, if what's left starts with `@`, peels that and delegates
# to zsh's file completion so `@can<TAB>` finds `candles.csv`.
_fugazi_at_file() {
    compset -P '*,'
    if [[ $PREFIX == @* ]]; then
        compset -P '@'
        _files
    fi
}

"@
}

/// A script whose three values that may come from a file complete file names.
pub open spec fn slots_patched(script: Seq<char>) -> Seq<char> {
    text::replaced(
        text::replaced(
            text::replaced(script, ":SERIES:_default"@, ":SERIES:_fugazi_at_file"@),
            ":SPEC:_default"@,
            ":SPEC:_fugazi_at_file"@,
        ),
        "inline YAML:_default"@,
        "inline YAML:_fugazi_at_file"@,
    )
}

/// Teach a zsh script to complete file names after an `@`.
pub fn patch_zsh(script: &str) -> (out: String)
    ensures
        out@ == helper() + slots_patched(script@),
{
    let mut out: String = "# Value completion for arguments that accept fugazi's `@file` convention.
# Peels any leading `key=value,` / `@file,` segments (--series and --params are
# `,`-separated), then, if what's left starts with `@`, peels that and delegates
# to zsh's file completion so `@can<TAB>` finds `candles.csv`.
_fugazi_at_file() {
    compset -P '*,'
    if [[ $PREFIX == @* ]]; then
        compset -P '@'
        _files
    fi
}

".to_owned();
    let series: String = text::replace(script, ":SERIES:_default", ":SERIES:_fugazi_at_file");
    let spec_: String = text::replace(&series, ":SPEC:_default", ":SPEC:_fugazi_at_file");
    let body: String = text::replace(
        &spec_,
        "inline YAML:_default",
        "inline YAML:_fugazi_at_file",
    );
    out.append(&body);
    out
}

/// A generated script as it is handed out: the one for zsh knows of files, the
/// others stay as they are.
pub fn finish(shell: Shell, script: &str) -> (out: String)
    ensures
        out@ == (if shell == Shell::Zsh {
            helper() + slots_patched(script@)
        } else {
            script@
        }),
{
    match shell {
        Shell::Zsh => patch_zsh(script),
        _ => script.to_owned(),
    }
}

/// A script that has none of a slot stays as it is.
pub proof fn other_text_stays(s: Seq<char>, from: Seq<char>, to: Seq<char>)
    requires
        forall|i: int| 0 <= i <= s.len() ==> !text::begins_with(#[trigger] s.skip(i), from),
    ensures
        text::replaced(s, from, to) == s,
    decreases s.len(),
{
    if s.len() > 0 && from.len() > 0 {
        let rest = s.skip(1);
        assert(s.skip(0) =~= s);
        assert forall|i: int| 0 <= i <= rest.len() implies !text::begins_with(
            #[trigger] rest.skip(i),
            from,
        ) by {
            assert(rest.skip(i) =~= s.skip(i + 1));
        }
        other_text_stays(rest, from, to);
        assert(seq![s[0]] + rest =~= s);
    }
}

} // verus!
