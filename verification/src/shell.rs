use vstd::prelude::*;
use crate::path::{TreePath, PathAndText, joined, whole};
use crate::text::{
    chars_of, push_char, string_of, sub_chars, same_chars, trim_chars, trimmed, lines_from, split_lines,
    texts, lemma_texts_push, joined_lines, join_lines, collapsed, collapse_blank_runs, contains_text,
    str_contains, occurs_at, newline_from, line_from, lemma_newline_from, lemma_newline_at, lemma_line_after_newline,
    lines_measure, lemma_lines_measure_bound, lemma_joined_len, lemma_collapsed_len, lemma_trimmed_len, lead_end,
    trail_end, lemma_trimmed_plain, lemma_lines_prefix, lemma_lines_cons, lemma_joined_push, lemma_lines_shift,
};

verus! {

/// First line of the block that setup writes into a shell rc file.
pub const BEGIN_MARKER: &'static str = "# >>> cdtree shell integration >>>";
/// Last line of that block.
pub const END_MARKER: &'static str = "# <<< cdtree shell integration <<<";
/// Comment that older versions wrote above their `source` line.
pub const LEGACY_HEADER: &'static str = "# cdtree";
/// Comment above the guarded `source` of the launcher.
pub const LAUNCHER_HEADER: &'static str = "# cdtree launcher";

/// `home/.config/cdtree/launcher/bash/cdtree`, the launcher script.
pub open spec fn launcher_file(home: PathAndText) -> PathAndText {
    joined(joined(joined(joined(joined(home, ".config"@), "cdtree"@), "launcher"@), "bash"@), "cdtree"@)
}

/// Where the launcher script lives under the home directory `home`.
pub fn launcher_path(home: &TreePath) -> (p: TreePath)
    ensures
        whole(p) == launcher_file(whole(*home)),
{
    home.child(".config").child("cdtree").child("launcher").child("bash").child("cdtree")
}

/// The shell rc files that setup looks at, in order: `~/.zshrc`, `~/.bashrc`.
pub fn rc_candidates(home: &TreePath) -> (rcs: Vec<TreePath>)
    ensures
        rcs@.len() == 2,
        whole(rcs@[0]) == joined(whole(*home), ".zshrc"@),
        whole(rcs@[1]) == joined(whole(*home), ".bashrc"@),
{
    let mut rcs = Vec::new();
    rcs.push(home.child(".zshrc"));
    rcs.push(home.child(".bashrc"));
    rcs
}

/// `v` with each `'` written as `'\''`.
pub open spec fn escaped(v: Seq<char>) -> Seq<char>
    decreases v.len(),
{
    if v.len() == 0 {
        Seq::empty()
    } else if v.last() == '\'' {
        escaped(v.drop_last()) + seq!['\'', '\\', '\'', '\'']
    } else {
        escaped(v.drop_last()).push(v.last())
    }
}

/// `v` as one single-quoted shell word.
pub open spec fn quoted(v: Seq<char>) -> Seq<char> {
    seq!['\''] + escaped(v) + seq!['\'']
}

/// Quotes `value` for a POSIX shell: the text in single quotes, each `'`
/// inside written as `'\''`.
pub fn shell_quote(value: &str) -> (q: String)
    ensures
        q@ == quoted(value@),
{
    let v = chars_of(value);
    let mut q = String::new();
    push_char(&mut q, '\'');
    let mut i: usize = 0;
    while i < v.len()
        invariant
            i <= v@.len(),
            v@ == value@,
            q@ == seq!['\''] + escaped(v@.take(i as int)),
        decreases v@.len() - i,
    {
        assert(v@.take(i + 1).drop_last() =~= v@.take(i as int));
        let c = v[i];
        if c == '\'' {
            push_char(&mut q, '\'');
            push_char(&mut q, '\\');
            push_char(&mut q, '\'');
            push_char(&mut q, '\'');
        } else {
            push_char(&mut q, c);
        }
        assert(q@ =~= seq!['\''] + escaped(v@.take(i + 1)));
        i = i + 1;
    }
    assert(v@.take(i as int) =~= value@);
    push_char(&mut q, '\'');
    q
}

/// Quotes the text of `path` for a POSIX shell.
pub fn shell_quote_path(path: &TreePath) -> (q: String)
    ensures
        q@ == quoted(path.text@),
{
    let t = path.to_text();
    shell_quote(t.as_str())
}

/// `source '<launcher>'`, the line that loads the launcher.
pub open spec fn source_text(l: Seq<char>) -> Seq<char> {
    "source "@ + quoted(l)
}

/// `source "<launcher>"`, the form older versions wrote.
pub open spec fn legacy_source_text(l: Seq<char>) -> Seq<char> {
    "source \""@ + l + "\""@
}

/// The line that loads the launcher at `launcher_path`.
pub fn source_line(launcher_path: &TreePath) -> (s: String)
    ensures
        s@ == source_text(launcher_path.text@),
{
    let q = shell_quote_path(launcher_path);
    let mut s = String::new();
    s.append("source ");
    s.append(q.as_str());
    s
}

/// The line that older versions wrote to load the launcher.
pub fn legacy_source_line(launcher_path: &TreePath) -> (s: String)
    ensures
        s@ == legacy_source_text(launcher_path.text@),
{
    let t = launcher_path.to_text();
    let mut s = String::new();
    s.append("source \"");
    s.append(t.as_str());
    s.append("\"");
    s
}

/// The managed block: the markers around a guarded `source` of the launcher.
pub open spec fn block_text(l: Seq<char>) -> Seq<char> {
    BEGIN_MARKER@ + "\n"@ + LAUNCHER_HEADER@ + "\nif [ -f "@ + quoted(l) + " ]; then\n  source "@ + quoted(l)
        + "\nfi\n"@ + END_MARKER@
}

/// The block that setup writes into a shell rc file.
pub fn integration_block(launcher_path: &TreePath) -> (b: String)
    ensures
        b@ == block_text(launcher_path.text@),
{
    let q = shell_quote_path(launcher_path);
    let mut b = String::new();
    b.append(BEGIN_MARKER);
    b.append("\n");
    b.append(LAUNCHER_HEADER);
    b.append("\nif [ -f ");
    b.append(q.as_str());
    b.append(" ]; then\n  source ");
    b.append(q.as_str());
    b.append("\nfi\n");
    b.append(END_MARKER);
    b
}

/// Whether `line`, trimmed, opens a shell `if` that tests the launcher at
/// `l`: `-f` or `-r`, with the path in double or single quotes.
pub open spec fn launcher_if_text(line: Seq<char>, l: Seq<char>) -> bool {
    let t = trimmed(line);
    ||| t == "if [ -f \""@ + l + "\" ]; then"@
    ||| t == "if [ -r \""@ + l + "\" ]; then"@
    ||| t == "if [ -f "@ + quoted(l) + " ]; then"@
    ||| t == "if [ -r "@ + quoted(l) + " ]; then"@
}

/// Whether `line`, trimmed, is a `source` of the launcher at `l`, in the
/// current or the older form.
pub open spec fn launcher_source_text(line: Seq<char>, l: Seq<char>) -> bool {
    let t = trimmed(line);
    t == source_text(l) || t == legacy_source_text(l)
}

fn text_of_parts(a: &str, b: &str, c: &str) -> (v: Vec<char>)
    ensures
        v@ == a@ + b@ + c@,
{
    let mut s = String::new();
    s.append(a);
    s.append(b);
    s.append(c);
    chars_of(s.as_str())
}

/// Whether `line` opens a shell `if` that tests the launcher at `launcher_path`.
pub fn is_launcher_if_line(line: &str, launcher_path: &TreePath) -> (b: bool)
    ensures
        b == launcher_if_text(line@, launcher_path.text@),
{
    let t = trim_chars(&chars_of(line));
    let l = launcher_path.to_text();
    let q = shell_quote_path(launcher_path);
    let f_plain = text_of_parts("if [ -f \"", l.as_str(), "\" ]; then");
    let r_plain = text_of_parts("if [ -r \"", l.as_str(), "\" ]; then");
    let f_quoted = text_of_parts("if [ -f ", q.as_str(), " ]; then");
    let r_quoted = text_of_parts("if [ -r ", q.as_str(), " ]; then");
    same_chars(&t, &f_plain) || same_chars(&t, &r_plain) || same_chars(&t, &f_quoted) || same_chars(&t, &r_quoted)
}

/// Whether `line` is a `source` of the launcher at `launcher_path`.
pub fn is_launcher_source_line(line: &str, launcher_path: &TreePath) -> (b: bool)
    ensures
        b == launcher_source_text(line@, launcher_path.text@),
{
    let t = trim_chars(&chars_of(line));
    let current = chars_of(source_line(launcher_path).as_str());
    let legacy = chars_of(legacy_source_line(launcher_path).as_str());
    same_chars(&t, &current) || same_chars(&t, &legacy)
}

/// Whether a line belongs to some form of the shell integration for the
/// launcher at `l`: a marker or launcher comment, a guard, or a `source` line.
pub open spec fn integration_line(line: Seq<char>, l: Seq<char>) -> bool {
    ||| trimmed(line) == BEGIN_MARKER@
    ||| trimmed(line) == LAUNCHER_HEADER@
    ||| launcher_if_text(line, l)
    ||| launcher_source_text(line, l)
}

/// The state of the line scan that removes the integration: inside a
/// managed block, inside an unmanaged guarded block, whether anything of the
/// integration outside a managed block was dropped, and the lines kept.
pub type ScanView = (bool, bool, bool, Seq<Seq<char>>);

/// The scan state after one more line.
pub open spec fn scan_step(st: ScanView, line: Seq<char>, l: Seq<char>) -> ScanView {
    let (managed, guarded, dropped, kept) = st;
    let t = trimmed(line);
    if t == BEGIN_MARKER@ {
        (true, guarded, dropped, kept)
    } else if managed {
        (t != END_MARKER@, guarded, dropped, kept)
    } else if t == LAUNCHER_HEADER@ {
        (managed, true, true, kept)
    } else if guarded {
        (managed, t != "fi"@, true, kept)
    } else if launcher_if_text(line, l) {
        (managed, true, true, kept)
    } else if launcher_source_text(line, l) {
        let drop_comment = kept.len() > 0 && (trimmed(kept.last()) == LEGACY_HEADER@ || trimmed(kept.last())
            == LAUNCHER_HEADER@);
        (managed, guarded, true, if drop_comment { kept.drop_last() } else { kept })
    } else {
        (managed, guarded, dropped, kept.push(line))
    }
}

/// The scan state after the lines `ls`, from the start of a file.
pub open spec fn scan(ls: Seq<Seq<char>>, l: Seq<char>) -> ScanView
    decreases ls.len(),
{
    if ls.len() == 0 {
        (false, false, false, Seq::empty())
    } else {
        scan_step(scan(ls.drop_last(), l), ls.last(), l)
    }
}

/// The lines of `content` that survive the removal of the integration for
/// the launcher at `l`.
pub open spec fn kept_lines(content: Seq<char>, l: Seq<char>) -> Seq<Seq<char>> {
    scan(lines_from(content, 0), l).3
}

/// Whether the removal dropped some piece of the integration outside a
/// managed block.
pub open spec fn dropped_unmanaged(content: Seq<char>, l: Seq<char>) -> bool {
    scan(lines_from(content, 0), l).2
}

/// `content` without the shell integration for the launcher at `l`: the kept
/// lines joined by `\n`, with the final `\n` when `content` had one and
/// something is left; when an unmanaged piece was dropped, runs of blank
/// lines are then shortened to one blank line.
pub open spec fn stripped(content: Seq<char>, l: Seq<char>) -> Seq<char> {
    let joined = joined_lines(kept_lines(content, l));
    let ended = content.len() > 0 && content.last() == '\n';
    let r = if ended && joined.len() > 0 { joined.push('\n') } else { joined };
    if dropped_unmanaged(content, l) { collapsed(r) } else { r }
}

fn last_is_comment(kept: &Vec<Vec<char>>, legacy: &Vec<char>, header: &Vec<char>) -> (b: bool)
    requires
        legacy@ == LEGACY_HEADER@,
        header@ == LAUNCHER_HEADER@,
    ensures
        b == (kept@.len() > 0 && (trimmed(kept@.last()@) == LEGACY_HEADER@ || trimmed(kept@.last()@)
            == LAUNCHER_HEADER@)),
{
    let n = kept.len();
    if n == 0 {
        return false;
    }
    let t = trim_chars(&kept[n - 1]);
    same_chars(&t, legacy) || same_chars(&t, header)
}

/// Removes every form of the shell integration for the launcher at
/// `launcher_path` from the rc file text `content`: the managed block, an
/// unmanaged guarded block, and `source` lines with the comment above them.
pub fn strip_shell_integration(content: &str, launcher_path: &TreePath) -> (r: String)
    ensures
        r@ == stripped(content@, launcher_path.text@),
{
    let ghost l = launcher_path.text@;
    let c = chars_of(content);
    let lines = split_lines(&c);
    let begin = chars_of(BEGIN_MARKER);
    let end = chars_of(END_MARKER);
    let legacy = chars_of(LEGACY_HEADER);
    let header = chars_of(LAUNCHER_HEADER);
    let fi = chars_of("fi");
    let mut managed = false;
    let mut guarded = false;
    let mut dropped = false;
    let mut kept: Vec<Vec<char>> = Vec::new();
    let mut i: usize = 0;
    assert(texts(kept@) =~= Seq::<Seq<char>>::empty());
    assert(texts(lines@).take(0) =~= Seq::<Seq<char>>::empty());
    while i < lines.len()
        invariant
            i <= lines@.len(),
            begin@ == BEGIN_MARKER@,
            end@ == END_MARKER@,
            legacy@ == LEGACY_HEADER@,
            header@ == LAUNCHER_HEADER@,
            fi@ == "fi"@,
            l == launcher_path.text@,
            (managed, guarded, dropped, texts(kept@)) == scan(texts(lines@).take(i as int), l),
        decreases lines@.len() - i,
    {
        let ghost ls = texts(lines@).take(i + 1);
        assert(ls.drop_last() =~= texts(lines@).take(i as int));
        let line = &lines[i];
        assert(ls.last() == line@);
        let t = trim_chars(line);
        let text = string_of(line, 0, line.len());
        assert(line@.subrange(0, line@.len() as int) =~= line@);
        if same_chars(&t, &begin) {
            managed = true;
        } else if managed {
            if same_chars(&t, &end) {
                managed = false;
            }
        } else if same_chars(&t, &header) {
            guarded = true;
            dropped = true;
        } else if guarded {
            dropped = true;
            if same_chars(&t, &fi) {
                guarded = false;
            }
        } else if is_launcher_if_line(text.as_str(), launcher_path) {
            guarded = true;
            dropped = true;
        } else if is_launcher_source_line(text.as_str(), launcher_path) {
            dropped = true;
            if last_is_comment(&kept, &legacy, &header) {
                let ghost before = kept@;
                kept.pop();
                assert(texts(kept@) =~= texts(before).drop_last());
            }
        } else {
            let copy = sub_chars(line, 0, line.len());
            proof {
                lemma_texts_push(kept@, copy);
            }
            kept.push(copy);
        }
        i = i + 1;
    }
    assert(texts(lines@).take(i as int) =~= texts(lines@));
    let mut joined = join_lines(&kept);
    if c.len() > 0 && c[c.len() - 1] == '\n' && joined.len() > 0 {
        joined.push('\n');
    }
    let out = if dropped { collapse_blank_runs(&joined) } else { joined };
    assert(out@.subrange(0, out@.len() as int) =~= out@);
    string_of(&out, 0, out.len())
}

/// What setup writes into an rc file holding `content`: `None` when a managed
/// block is there and removing the integration would change the file (the
/// integration is already set up); else the file without any older form of
/// the integration, a newline, the managed block and a final newline.
pub open spec fn setup_text(content: Seq<char>, l: Seq<char>) -> Option<Seq<char>> {
    let cleaned = stripped(content, l);
    if contains_text(content, BEGIN_MARKER@) && cleaned != content {
        None
    } else {
        Some(cleaned + "\n"@ + block_text(l) + "\n"@)
    }
}

/// The new text of an rc file holding `content` after setup, or `None` when
/// the integration is already set up there.
pub fn rc_text_with_integration(content: &str, launcher_path: &TreePath) -> (r: Option<String>)
    ensures
        match r {
            Some(t) => setup_text(content@, launcher_path.text@) == Some(t@),
            None => setup_text(content@, launcher_path.text@) is None,
        },
{
    let cleaned = strip_shell_integration(content, launcher_path);
    let same = same_chars(&chars_of(cleaned.as_str()), &chars_of(content));
    if str_contains(content, BEGIN_MARKER) && !same {
        return None;
    }
    let block = integration_block(launcher_path);
    let mut t = cleaned;
    t.append("\n");
    t.append(block.as_str());
    t.append("\n");
    Some(t)
}

/// The new text of an rc file holding `content` once the integration is
/// removed, or `None` when there is nothing to remove.
pub fn rc_text_without_integration(content: &str, launcher_path: &TreePath) -> (r: Option<String>)
    ensures
        match r {
            Some(t) => t@ == stripped(content@, launcher_path.text@) && t@ != content@,
            None => stripped(content@, launcher_path.text@) == content@,
        },
{
    let cleaned = strip_shell_integration(content, launcher_path);
    if same_chars(&chars_of(cleaned.as_str()), &chars_of(content)) {
        None
    } else {
        Some(cleaned)
    }
}

/// Whether an rc file holding `content` shows any form of the integration:
/// the managed block's first line, a `source` of the launcher at `l` in
/// either form, or the launcher comment.
pub open spec fn mentions_text(content: Seq<char>, l: Seq<char>) -> bool {
    ||| contains_text(content, BEGIN_MARKER@)
    ||| contains_text(content, source_text(l))
    ||| contains_text(content, legacy_source_text(l))
    ||| contains_text(content, LAUNCHER_HEADER@)
}

/// Whether the rc file text `content` shows any form of the integration for
/// the launcher at `launcher_path`.
pub fn mentions_integration(content: &str, launcher_path: &TreePath) -> (b: bool)
    ensures
        b == mentions_text(content@, launcher_path.text@),
{
    let src = source_line(launcher_path);
    let legacy = legacy_source_line(launcher_path);
    str_contains(content, BEGIN_MARKER) || str_contains(content, src.as_str()) || str_contains(
        content,
        legacy.as_str(),
    ) || str_contains(content, LAUNCHER_HEADER)
}

/// Whether the integration is set up: the launcher exists and one of the rc
/// files that could be read (`Some` text) shows it.
pub open spec fn integration_present(launcher_exists: bool, rcs: Seq<Option<Seq<char>>>, l: Seq<char>) -> bool {
    launcher_exists && exists|i: int| 0 <= i < rcs.len() && rc_mentions(#[trigger] rcs[i], l)
}

/// Whether an rc file that could be read shows the integration.
pub open spec fn rc_mentions(rc: Option<Seq<char>>, l: Seq<char>) -> bool {
    match rc {
        Some(t) => mentions_text(t, l),
        None => false,
    }
}

/// The rc texts as mathematical text.
pub open spec fn rc_views(rcs: Seq<Option<String>>) -> Seq<Option<Seq<char>>> {
    rcs.map_values(|o: Option<String>| match o {
        Some(t) => Some(t@),
        None => None,
    })
}

/// Whether the integration is set up, given whether the launcher exists and
/// the text of each rc file (`None` for one that is missing or unreadable).
pub fn has_shell_integration(launcher_exists: bool, rc_texts: &Vec<Option<String>>, launcher_path: &TreePath) -> (b: bool)
    ensures
        b == integration_present(launcher_exists, rc_views(rc_texts@), launcher_path.text@),
{
    let ghost rcs = rc_views(rc_texts@);
    let ghost l = launcher_path.text@;
    if !launcher_exists {
        return false;
    }
    let mut i: usize = 0;
    while i < rc_texts.len()
        invariant
            i <= rc_texts@.len(),
            launcher_exists,
            rcs == rc_views(rc_texts@),
            l == launcher_path.text@,
            forall|k: int| 0 <= k < i ==> !rc_mentions(#[trigger] rcs[k], l),
        decreases rc_texts@.len() - i,
    {
        assert(rcs.len() == rc_texts@.len());
        assert(rcs[i as int] == match rc_texts@[i as int] { Some(t) => Some(t@), None => None::<Seq<char>> });
        match &rc_texts[i] {
            Some(t) => {
                if mentions_integration(t.as_str(), launcher_path) {
                    assert(rc_mentions(rcs[i as int], l));
                    return true;
                }
            },
            None => {},
        }
        i = i + 1;
    }
    false
}

/// What the doctor finds in one rc file.
#[derive(Debug, Clone, Copy, PartialEq, Eq, Structural)]
pub enum RcStatus {
    /// The file holds the managed block.
    Managed,
    /// The file holds a launcher block that setup did not write.
    UnmanagedLauncherBlock,
    /// The file holds only a `source` line of the launcher.
    LegacySourceLine,
    /// The file shows no integration.
    NotConfigured,
}

/// The doctor's finding for an rc file holding `content`.
pub open spec fn status_of(content: Seq<char>, l: Seq<char>) -> RcStatus {
    if contains_text(content, BEGIN_MARKER@) {
        RcStatus::Managed
    } else if contains_text(content, LAUNCHER_HEADER@) {
        RcStatus::UnmanagedLauncherBlock
    } else if contains_text(content, source_text(l)) || contains_text(content, legacy_source_text(l)) {
        RcStatus::LegacySourceLine
    } else {
        RcStatus::NotConfigured
    }
}

/// What the doctor finds in the rc file text `content`.
pub fn rc_status(content: &str, launcher_path: &TreePath) -> (st: RcStatus)
    ensures
        st == status_of(content@, launcher_path.text@),
{
    if str_contains(content, BEGIN_MARKER) {
        RcStatus::Managed
    } else if str_contains(content, LAUNCHER_HEADER) {
        RcStatus::UnmanagedLauncherBlock
    } else {
        let src = source_line(launcher_path);
        let legacy = legacy_source_line(launcher_path);
        if str_contains(content, src.as_str()) || str_contains(content, legacy.as_str()) {
            RcStatus::LegacySourceLine
        } else {
            RcStatus::NotConfigured
        }
    }
}

/// The doctor's conclusion.
#[derive(Debug, Clone, Copy, PartialEq, Eq, Structural)]
pub enum DoctorVerdict {
    /// Launcher present, a managed block found, nothing older left.
    Healthy,
    /// The launcher or every managed block is missing: setup must run.
    Repair,
    /// Set up, but older forms of the integration remain: setup migrates them.
    Migrate,
}

/// Whether some rc file holds the managed block (`None` stands for a missing file).
pub open spec fn any_managed(rcs: Seq<Option<RcStatus>>) -> bool {
    exists|i: int| 0 <= i < rcs.len() && rcs[i] == Some(RcStatus::Managed)
}

/// Whether some rc file holds an older form of the integration.
pub open spec fn any_warning(rcs: Seq<Option<RcStatus>>) -> bool {
    exists|i: int|
        0 <= i < rcs.len() && (rcs[i] == Some(RcStatus::UnmanagedLauncherBlock) || rcs[i] == Some(
            RcStatus::LegacySourceLine,
        ))
}

/// The doctor's conclusion from whether the launcher exists and the
/// findings per rc file.
pub open spec fn verdict_of(launcher_exists: bool, rcs: Seq<Option<RcStatus>>) -> DoctorVerdict {
    if launcher_exists && any_managed(rcs) && !any_warning(rcs) {
        DoctorVerdict::Healthy
    } else if !launcher_exists || !any_managed(rcs) {
        DoctorVerdict::Repair
    } else {
        DoctorVerdict::Migrate
    }
}

/// The doctor's conclusion, given whether the launcher exists and, for each
/// rc file, its finding (`None` when the file is missing).
pub fn doctor_verdict(launcher_exists: bool, rcs: &Vec<Option<RcStatus>>) -> (v: DoctorVerdict)
    ensures
        v == verdict_of(launcher_exists, rcs@),
{
    let mut managed = false;
    let mut warning = false;
    let mut i: usize = 0;
    while i < rcs.len()
        invariant
            i <= rcs@.len(),
            managed == exists|k: int| 0 <= k < i && rcs@[k] == Some(RcStatus::Managed),
            warning == exists|k: int|
                0 <= k < i && (rcs@[k] == Some(RcStatus::UnmanagedLauncherBlock) || rcs@[k] == Some(
                    RcStatus::LegacySourceLine,
                )),
        decreases rcs@.len() - i,
    {
        match rcs[i] {
            Some(RcStatus::Managed) => {
                managed = true;
            },
            Some(RcStatus::UnmanagedLauncherBlock) | Some(RcStatus::LegacySourceLine) => {
                warning = true;
            },
            _ => {},
        }
        i = i + 1;
    }
    if launcher_exists && managed && !warning {
        DoctorVerdict::Healthy
    } else if !launcher_exists || !managed {
        DoctorVerdict::Repair
    } else {
        DoctorVerdict::Migrate
    }
}

/// Which rc file setup writes to: `.zshrc` (0) when it exists, else
/// `.bashrc` (1) when it exists, else none.
pub fn setup_target(zshrc_exists: bool, bashrc_exists: bool) -> (t: Option<usize>)
    ensures
        t == if zshrc_exists { Some(0usize) } else if bashrc_exists { Some(1usize) } else { None },
{
    if zshrc_exists {
        Some(0)
    } else if bashrc_exists {
        Some(1)
    } else {
        None
    }
}

/// The launcher script's text before the quoted executable path.
pub open spec fn script_head() -> Seq<char> {
    "\n# cdtree integration\nfunction cdtree() {\n    # Handle help and version flags directly without cd\n    case \"$1\" in\n        -h|--help|-v|--version|-s|--setup|--uninstall|--doctor)\n            "@
}

/// The launcher script's text between the two uses of the executable path.
pub open spec fn script_middle() -> Seq<char> {
    " \"$@\"\n            return\n            ;;\n    esac\n    local target\n    target=$("@
}

/// The launcher script's text after the second use of the executable path.
pub open spec fn script_tail() -> Seq<char> {
    " \"$@\") || return\n    [ -n \"$target\" ] && [ -d \"$target\" ] && builtin cd -- \"$target\"\n}\n"@
}

/// The launcher script for the executable whose quoted path is `q`: a shell
/// function `cdtree` that runs the executable and changes to the directory
/// it prints, passing the option flags straight through.
pub open spec fn script_text(q: Seq<char>) -> Seq<char> {
    script_head() + q + script_middle() + q + script_tail()
}

/// The launcher script that calls the executable at `executable`.
pub fn launcher_script(executable: &TreePath) -> (s: String)
    ensures
        s@ == script_text(quoted(executable.text@)),
{
    let q = shell_quote_path(executable);
    let mut s = String::new();
    s.append("\n# cdtree integration\nfunction cdtree() {\n    # Handle help and version flags directly without cd\n    case \"$1\" in\n        -h|--help|-v|--version|-s|--setup|--uninstall|--doctor)\n            ");
    s.append(q.as_str());
    s.append(" \"$@\"\n            return\n            ;;\n    esac\n    local target\n    target=$(");
    s.append(q.as_str());
    s.append(" \"$@\") || return\n    [ -n \"$target\" ] && [ -d \"$target\" ] && builtin cd -- \"$target\"\n}\n");
    s
}

proof fn lemma_scan_kept_clean(ls: Seq<Seq<char>>, l: Seq<char>)
    ensures
        forall|k: int| 0 <= k < scan(ls, l).3.len() ==> !integration_line(#[trigger] scan(ls, l).3[k], l),
    decreases ls.len(),
{
    if ls.len() > 0 {
        lemma_scan_kept_clean(ls.drop_last(), l);
        let before = scan(ls.drop_last(), l).3;
        let after = scan(ls, l).3;
        assert forall|k: int| 0 <= k < after.len() implies !integration_line(#[trigger] after[k], l) by {
            if k < before.len() {
                assert(after[k] == before[k]);
            }
        }
    }
}

/// `a` is `b` with some of its lines left out: `f` gives, for each line of
/// `a`, where it stands in `b`, in increasing order.
pub open spec fn picked_from(a: Seq<Seq<char>>, b: Seq<Seq<char>>, f: Seq<int>) -> bool {
    &&& f.len() == a.len()
    &&& forall|k: int| 0 <= k < a.len() ==> 0 <= #[trigger] f[k] < b.len() && a[k] == b[f[k]]
    &&& forall|i: int, j: int| 0 <= i < j < a.len() ==> f[i] < f[j]
}

/// `a` is `b` with some of its lines left out, in the same order.
pub open spec fn is_sublist(a: Seq<Seq<char>>, b: Seq<Seq<char>>) -> bool {
    exists|f: Seq<int>| picked_from(a, b, f)
}

proof fn lemma_scan_kept_in_order(ls: Seq<Seq<char>>, l: Seq<char>) -> (f: Seq<int>)
    ensures
        picked_from(scan(ls, l).3, ls, f),
    decreases ls.len(),
{
    if ls.len() == 0 {
        Seq::empty()
    } else {
        let front = ls.drop_last();
        let f0 = lemma_scan_kept_in_order(front, l);
        let before = scan(front, l).3;
        let after = scan(ls, l).3;
        assert forall|k: int| 0 <= k < before.len() implies 0 <= #[trigger] f0[k] < ls.len() && before[k] == ls[f0[k]] by {
            assert(front[f0[k]] == ls[f0[k]]);
        }
        if after == before {
            f0
        } else if before.len() > 0 && after == before.drop_last() {
            let f1 = f0.drop_last();
            assert forall|k: int| 0 <= k < after.len() implies 0 <= #[trigger] f1[k] < ls.len() && after[k] == ls[f1[k]] by {
                assert(f1[k] == f0[k]);
                assert(after[k] == before[k]);
            }
            f1
        } else {
            assert(after == before.push(ls.last()));
            let f1 = f0.push(ls.len() - 1);
            assert forall|k: int| 0 <= k < after.len() implies 0 <= #[trigger] f1[k] < ls.len() && after[k] == ls[f1[k]] by {
                if k < before.len() {
                    assert(f1[k] == f0[k]);
                    assert(after[k] == before[k]);
                } else {
                    assert(f1[k] == ls.len() - 1);
                }
            }
            assert forall|i: int, j: int| 0 <= i < j < after.len() implies f1[i] < f1[j] by {
                if j < before.len() {
                    assert(f1[i] == f0[i] && f1[j] == f0[j]);
                } else {
                    assert(f1[i] == f0[i]);
                }
            }
            f1
        }
    }
}

/// Removing the integration leaves none of it behind, and only takes lines
/// out: the lines that the result is made of are lines of `content`, in
/// their order there, and none of them is a marker, the launcher comment, a
/// guard of the launcher or a `source` of it.
pub proof fn lemma_stripped_lines_clean(content: Seq<char>, l: Seq<char>)
    ensures
        forall|k: int|
            0 <= k < kept_lines(content, l).len() ==> !integration_line(#[trigger] kept_lines(content, l)[k], l),
        is_sublist(kept_lines(content, l), lines_from(content, 0)),
{
    lemma_scan_kept_clean(lines_from(content, 0), l);
    let f = lemma_scan_kept_in_order(lines_from(content, 0), l);
    assert(picked_from(kept_lines(content, l), lines_from(content, 0), f));
}

proof fn lemma_sublist_refl(a: Seq<Seq<char>>)
    ensures
        is_sublist(a, a),
{
    let f = Seq::new(a.len(), |k: int| k);
    assert(picked_from(a, a, f));
}

proof fn lemma_sublist_trans(a: Seq<Seq<char>>, b: Seq<Seq<char>>, c: Seq<Seq<char>>)
    requires
        is_sublist(a, b),
        is_sublist(b, c),
    ensures
        is_sublist(a, c),
{
    let f = choose|f: Seq<int>| picked_from(a, b, f);
    let g = choose|g: Seq<int>| picked_from(b, c, g);
    let h = Seq::new(a.len(), |k: int| g[f[k]]);
    assert forall|k: int| 0 <= k < a.len() implies 0 <= #[trigger] h[k] < c.len() && a[k] == c[h[k]] by {
        assert(0 <= f[k] < b.len());
    }
    assert forall|i: int, j: int| 0 <= i < j < a.len() implies h[i] < h[j] by {
        assert(f[i] < f[j]);
        assert(0 <= f[i] < b.len() && 0 <= f[j] < b.len());
    }
    assert(picked_from(a, c, h));
}

proof fn lemma_sublist_prefix(x: Seq<Seq<char>>, a: Seq<Seq<char>>, b: Seq<Seq<char>>)
    requires
        is_sublist(a, b),
    ensures
        is_sublist(x + a, x + b),
{
    let f = choose|f: Seq<int>| picked_from(a, b, f);
    let n = x.len() as int;
    let h = Seq::new((x.len() + a.len()) as nat, |k: int| if k < n { k } else { n + f[k - n] });
    assert forall|k: int| 0 <= k < (x + a).len() implies 0 <= #[trigger] h[k] < (x + b).len() && (x + a)[k] == (x + b)[h[k]] by {
        if k >= n {
            assert(0 <= f[k - n] < b.len());
        }
    }
    assert forall|i: int, j: int| 0 <= i < j < (x + a).len() implies h[i] < h[j] by {
        if i >= n {
            assert(f[i - n] < f[j - n]);
        } else if j >= n {
            assert(0 <= f[j - n]);
        }
    }
    assert(picked_from(x + a, x + b, h));
}

proof fn lemma_sublist_skip(e: Seq<char>, c: Seq<Seq<char>>)
    ensures
        is_sublist(c, seq![e] + c),
{
    let h = Seq::new(c.len(), |k: int| k + 1);
    assert forall|k: int| 0 <= k < c.len() implies 0 <= #[trigger] h[k] < (seq![e] + c).len() && c[k] == (seq![e] + c)[h[k]] by {}
    assert(picked_from(c, seq![e] + c, h));
}

/// Taking out a `\n` that follows a `\n` only takes out an empty line.
proof fn lemma_lines_drop_blank(x: Seq<char>, y: Seq<char>)
    requires
        x.len() > 0,
        x[x.len() - 1] == '\n',
    ensures
        is_sublist(lines_from(x + y, 0), lines_from(x + (seq!['\n'] + y), 0)),
{
    lemma_lines_prefix(x, y, 0);
    lemma_lines_prefix(x, seq!['\n'] + y, 0);
    lemma_lines_cons(Seq::<char>::empty(), y);
    assert(Seq::<char>::empty() + seq!['\n'] + y =~= seq!['\n'] + y);
    lemma_sublist_skip(Seq::<char>::empty(), lines_from(y, 0));
    lemma_sublist_prefix(lines_from(x, 0), lines_from(y, 0), seq![Seq::<char>::empty()] + lines_from(y, 0));
}

/// Shortening runs of blank lines only takes lines out, whatever follows.
proof fn lemma_collapsed_lines(s: Seq<char>, u: Seq<char>)
    ensures
        is_sublist(lines_from(collapsed(s) + u, 0), lines_from(s + u, 0)),
    decreases s.len(),
{
    if s.len() == 0 {
        assert(collapsed(s) + u =~= s + u);
        lemma_sublist_refl(lines_from(s + u, 0));
    } else {
        let front = s.drop_last();
        let c = s.last();
        let p = collapsed(front);
        assert(front + (seq![c] + u) =~= s + u);
        lemma_collapsed_lines(front, seq![c] + u);
        if c == '\n' && p.len() >= 2 && p[p.len() - 1] == '\n' && p[p.len() - 2] == '\n' {
            assert(collapsed(s) == p);
            lemma_lines_drop_blank(p, u);
            lemma_sublist_trans(lines_from(p + u, 0), lines_from(p + (seq![c] + u), 0), lines_from(s + u, 0));
        } else {
            assert(collapsed(s) == p.push(c));
            assert(p.push(c) + u =~= p + (seq![c] + u));
        }
    }
}

/// The lines of `s[i..]` hold no `\n`.
proof fn lemma_lines_plain(s: Seq<char>, i: int)
    ensures
        forall|m: int, k: int| 0 <= m < lines_from(s, i).len() && 0 <= k < lines_from(s, i)[m].len()
            ==> #[trigger] lines_from(s, i)[m][k] != '\n',
    decreases s.len() - i,
{
    if 0 <= i < s.len() {
        lemma_newline_from(s, i);
        let j = newline_from(s, i);
        let ls = lines_from(s, i);
        let rest: Seq<Seq<char>> = if j < s.len() { lines_from(s, j + 1) } else { Seq::empty() };
        if j < s.len() {
            lemma_lines_plain(s, j + 1);
        }
        assert(ls == seq![line_from(s, i)] + rest);
        assert forall|m: int, k: int| 0 <= m < ls.len() && 0 <= k < ls[m].len()
            implies #[trigger] ls[m][k] != '\n' by {
            if m == 0 {
                assert(ls[0][k] == s[i + k]);
            } else {
                assert(ls[m] == rest[m - 1]);
            }
        }
    }
}

/// Whether a line ends with `\r` (which a following `\n` would take away).
pub open spec fn ends_with_cr(x: Seq<char>) -> bool {
    x.len() > 0 && x[x.len() - 1] == '\r'
}

/// Lines joined by `\n`, with a final `\n` or not, read back as those lines,
/// save possibly an empty last one, when no line that a `\n` follows ends
/// with `\r`.
proof fn lemma_joined_lines_sublist(ks: Seq<Seq<char>>, ended: bool)
    requires
        forall|m: int, k: int| 0 <= m < ks.len() && 0 <= k < ks[m].len() ==> #[trigger] ks[m][k] != '\n',
        forall|m: int| 0 <= m < ks.len() && #[trigger] ends_with_cr(ks[m]) ==> m == ks.len() - 1 && !ended,
        ended ==> ks.len() > 0,
    ensures
        is_sublist(lines_from(joined_lines(ks) + if ended { seq!['\n'] } else { Seq::<char>::empty() }, 0), ks),
    decreases ks.len(),
{
    let tail: Seq<char> = if ended { seq!['\n'] } else { Seq::empty() };
    if ks.len() == 0 {
        assert(joined_lines(ks) + tail =~= Seq::<char>::empty());
        assert(picked_from(lines_from(Seq::<char>::empty(), 0), ks, Seq::<int>::empty()));
    } else {
        let k0 = ks[0];
        assert forall|k: int| 0 <= k < k0.len() implies k0[k] != '\n' by {
            assert(ks[0][k] != '\n');
        }
        assert((ks.len() > 1 || ended) ==> !ends_with_cr(ks[0]));
        if ks.len() == 1 {
            assert(joined_lines(ks) == k0);
            if ended {
                lemma_lines_cons(k0, Seq::<char>::empty());
                assert(k0 + seq!['\n'] + Seq::<char>::empty() =~= joined_lines(ks) + tail);
                assert(lines_from(Seq::<char>::empty(), 0) =~= Seq::<Seq<char>>::empty());
                assert(seq![k0] + Seq::<Seq<char>>::empty() =~= ks);
                lemma_sublist_refl(ks);
            } else if k0.len() == 0 {
                assert(joined_lines(ks) + tail =~= Seq::<char>::empty());
                assert(picked_from(lines_from(Seq::<char>::empty(), 0), ks, Seq::<int>::empty()));
            } else {
                assert(joined_lines(ks) + tail =~= k0);
                lemma_newline_from(k0, 0);
                assert(newline_from(k0, 0) == k0.len());
                assert(k0.subrange(0, k0.len() as int) =~= k0);
                assert(lines_from(k0, 0) =~= seq![k0]);
                assert(ks =~= seq![k0]);
                lemma_sublist_refl(ks);
            }
        } else {
            let rest = ks.drop_first();
            assert forall|m: int, k: int| 0 <= m < rest.len() && 0 <= k < rest[m].len()
                implies #[trigger] rest[m][k] != '\n' by {
                assert(rest[m] == ks[m + 1]);
            }
            assert forall|m: int| 0 <= m < rest.len() && #[trigger] ends_with_cr(rest[m])
                implies m == rest.len() - 1 && !ended by {
                assert(rest[m] == ks[m + 1]);
            }
            lemma_joined_lines_sublist(rest, ended);
            let w = joined_lines(rest) + tail;
            assert(joined_lines(ks) == k0 + seq!['\n'] + joined_lines(rest));
            assert(joined_lines(ks) + tail =~= k0 + seq!['\n'] + w);
            lemma_lines_cons(k0, w);
            lemma_sublist_prefix(seq![k0], lines_from(w, 0), rest);
            assert(seq![k0] + rest =~= ks);
        }
    }
}

/// The lines of the text that the removal gives back are lines of `content`,
/// in their order there, and none of them is a piece of the integration.
/// Left out: a kept line that ends with `\r` and is followed by a `\n` in
/// the result, which reads back without its `\r`.
pub proof fn lemma_stripped_result_lines(content: Seq<char>, l: Seq<char>)
    requires
        forall|m: int| 0 <= m < kept_lines(content, l).len() && #[trigger] ends_with_cr(kept_lines(content, l)[m])
            ==> m == kept_lines(content, l).len() - 1 && !(content.len() > 0 && content.last() == '\n'),
    ensures
        is_sublist(lines_from(stripped(content, l), 0), lines_from(content, 0)),
        forall|k: int| 0 <= k < lines_from(stripped(content, l), 0).len()
            ==> !integration_line(#[trigger] lines_from(stripped(content, l), 0)[k], l),
{
    let ls = lines_from(content, 0);
    let ks = kept_lines(content, l);
    lemma_stripped_lines_clean(content, l);
    let f = choose|f: Seq<int>| picked_from(ks, ls, f);
    lemma_lines_plain(content, 0);
    assert forall|m: int, k: int| 0 <= m < ks.len() && 0 <= k < ks[m].len()
        implies #[trigger] ks[m][k] != '\n' by {
        assert(ks[m] == ls[f[m]]);
        assert(0 <= f[m] < ls.len());
        assert(ls[f[m]][k] == ks[m][k]);
    }
    let j = joined_lines(ks);
    let ended = content.len() > 0 && content.last() == '\n' && j.len() > 0;
    if ended {
        assert(ks.len() > 0) by {
            if ks.len() == 0 {
                assert(j =~= Seq::<char>::empty());
            }
        }
    }
    lemma_joined_lines_sublist(ks, ended);
    let r = if ended { j.push('\n') } else { j };
    assert(r =~= j + if ended { seq!['\n'] } else { Seq::<char>::empty() });
    let out = stripped(content, l);
    if dropped_unmanaged(content, l) {
        assert(out == collapsed(r));
        lemma_collapsed_lines(r, Seq::<char>::empty());
        assert(collapsed(r) + Seq::<char>::empty() =~= collapsed(r));
        assert(r + Seq::<char>::empty() =~= r);
        lemma_sublist_trans(lines_from(out, 0), lines_from(r, 0), ks);
    } else {
        assert(out == r);
    }
    lemma_sublist_trans(lines_from(out, 0), ks, ls);
    let g = choose|g: Seq<int>| picked_from(lines_from(out, 0), ks, g);
    assert forall|k: int| 0 <= k < lines_from(out, 0).len() implies !integration_line(#[trigger] lines_from(out, 0)[k], l) by {
        assert(lines_from(out, 0)[k] == ks[g[k]]);
        assert(0 <= g[k] < ks.len());
    }
}

proof fn lemma_scan_of_clean_lines(ls: Seq<Seq<char>>, l: Seq<char>)
    requires
        forall|k: int| 0 <= k < ls.len() ==> !integration_line(#[trigger] ls[k], l),
    ensures
        scan(ls, l) == (false, false, false, ls),
    decreases ls.len(),
{
    if ls.len() > 0 {
        assert forall|k: int| 0 <= k < ls.drop_last().len() implies !integration_line(
            #[trigger] ls.drop_last()[k],
            l,
        ) by {
            assert(ls.drop_last()[k] == ls[k]);
        }
        lemma_scan_of_clean_lines(ls.drop_last(), l);
        assert(!integration_line(ls[ls.len() - 1], l));
        assert(ls.drop_last().push(ls.last()) =~= ls);
    }
}

proof fn lemma_lines_rejoin(c: Seq<char>, i: int)
    requires
        0 <= i < c.len(),
        forall|k: int| 0 <= k < c.len() ==> c[k] != '\r',
    ensures
        joined_lines(lines_from(c, i)) + (if c.last() == '\n' { seq!['\n'] } else { Seq::empty() })
            == c.subrange(i, c.len() as int),
    decreases c.len() - i,
{
    lemma_newline_from(c, i);
    let j = newline_from(c, i);
    let ls = lines_from(c, i);
    assert(line_from(c, i) == c.subrange(i, j));
    if j == c.len() {
        assert(ls =~= seq![c.subrange(i, j)]);
        assert(c[c.len() - 1] != '\n');
    } else if j + 1 == c.len() {
        assert(lines_from(c, j + 1) =~= Seq::<Seq<char>>::empty());
        assert(ls =~= seq![c.subrange(i, j)]);
        assert(c.subrange(i, j) + seq!['\n'] =~= c.subrange(i, c.len() as int));
    } else {
        lemma_lines_rejoin(c, j + 1);
        let rest = lines_from(c, j + 1);
        assert(rest.len() > 0);
        assert(ls == seq![c.subrange(i, j)] + rest);
        assert(ls.drop_first() =~= rest);
        assert(joined_lines(ls) == c.subrange(i, j) + seq!['\n'] + joined_lines(rest));
        assert(c.subrange(i, j) + seq!['\n'] + c.subrange(j + 1, c.len() as int) =~= c.subrange(i, c.len() as int));
    }
}

/// An rc file that holds no part of the integration comes back unchanged,
/// so uninstalling leaves it alone. (A file that is a single newline, or
/// that has `\r` characters, may still be rewritten.)
pub proof fn lemma_strip_keeps_clean_text(content: Seq<char>, l: Seq<char>)
    requires
        content != seq!['\n'],
        forall|k: int| 0 <= k < content.len() ==> content[k] != '\r',
        forall|k: int|
            0 <= k < lines_from(content, 0).len() ==> !integration_line(#[trigger] lines_from(content, 0)[k], l),
    ensures
        stripped(content, l) == content,
{
    let ls = lines_from(content, 0);
    lemma_scan_of_clean_lines(ls, l);
    if content.len() == 0 {
        assert(ls =~= Seq::<Seq<char>>::empty());
        assert(content =~= Seq::<char>::empty());
    } else {
        lemma_lines_rejoin(content, 0);
        assert(content.subrange(0, content.len() as int) =~= content);
        let joined = joined_lines(ls);
        if content.last() == '\n' {
            if joined.len() == 0 {
                assert(joined + seq!['\n'] =~= seq!['\n']);
            }
            assert(joined.push('\n') =~= joined + seq!['\n']);
        } else {
            assert(joined + Seq::<char>::empty() =~= joined);
        }
    }
}

/// After setup, the rc file holds the managed block: the doctor finds it
/// managed, and the integration counts as present there.
pub proof fn lemma_setup_text_is_managed(content: Seq<char>, l: Seq<char>)
    ensures
        setup_text(content, l) matches Some(t) ==> status_of(t, l) == RcStatus::Managed && mentions_text(t, l),
{
    if let Some(t) = setup_text(content, l) {
        reveal_strlit("\n");
        let cleaned = stripped(content, l);
        let k: int = cleaned.len() as int + 1;
        let rest = "\n"@ + LAUNCHER_HEADER@ + "\nif [ -f "@ + quoted(l) + " ]; then\n  source "@ + quoted(l)
            + "\nfi\n"@ + END_MARKER@;
        assert(block_text(l) =~= BEGIN_MARKER@ + rest);
        assert(t =~= cleaned + "\n"@ + BEGIN_MARKER@ + (rest + "\n"@));
        assert(t.subrange(k, k + BEGIN_MARKER@.len()) =~= BEGIN_MARKER@);
        assert(occurs_at(t, BEGIN_MARKER@, k));
    }
}

proof fn lemma_scan_measure(ls: Seq<Seq<char>>, l: Seq<char>)
    ensures
        lines_measure(scan(ls, l).3) <= lines_measure(ls),
        forall|k: int| 0 <= k < ls.len() && trimmed(#[trigger] ls[k]) == BEGIN_MARKER@
            ==> lines_measure(scan(ls, l).3) + BEGIN_MARKER@.len() + 1 <= lines_measure(ls),
    decreases ls.len(),
{
    if ls.len() > 0 {
        let front = ls.drop_last();
        let x = ls.last();
        lemma_scan_measure(front, l);
        let before = scan(front, l).3;
        let after = scan(ls, l).3;
        assert(lines_measure(ls) == lines_measure(front) + x.len() + 1);
        if before.len() > 0 {
            assert(lines_measure(before.drop_last()) <= lines_measure(before));
        }
        assert(after == before || after == before.push(x) || (before.len() > 0 && after == before.drop_last()));
        if after == before.push(x) {
            assert(after.drop_last() =~= before);
        }
        assert(lines_measure(after) <= lines_measure(before) + x.len() + 1);
        lemma_trimmed_len(x);
        assert forall|k: int| 0 <= k < ls.len() && trimmed(#[trigger] ls[k]) == BEGIN_MARKER@
            implies lines_measure(after) + BEGIN_MARKER@.len() + 1 <= lines_measure(ls) by {
            if k < ls.len() - 1 {
                assert(front[k] == ls[k]);
            } else {
                assert(after == before);
            }
        }
    }
}

proof fn lemma_stripped_len(content: Seq<char>, l: Seq<char>)
    ensures
        stripped(content, l).len() <= lines_measure(kept_lines(content, l)),
{
    let kept = kept_lines(content, l);
    let joined = joined_lines(kept);
    lemma_joined_len(kept);
    let ended = content.len() > 0 && content.last() == '\n';
    let r = if ended && joined.len() > 0 { joined.push('\n') } else { joined };
    lemma_collapsed_len(r);
    if kept.len() == 0 {
        assert(lines_measure(kept) == 0);
    }
}

/// Running setup a second time changes nothing: once setup has written the
/// managed block, it finds the integration already in place.
pub proof fn lemma_setup_twice(content: Seq<char>, l: Seq<char>)
    ensures
        setup_text(content, l) matches Some(t) ==> setup_text(t, l) is None,
{
    if let Some(t) = setup_text(content, l) {
        lemma_setup_text_is_managed(content, l);
        reveal_strlit("# >>> cdtree shell integration >>>");
        reveal_strlit("\n");
        let cleaned = stripped(content, l);
        let b = BEGIN_MARKER@;
        let k: int = cleaned.len() as int + 1;
        let rest = "\n"@ + LAUNCHER_HEADER@ + "\nif [ -f "@ + quoted(l) + " ]; then\n  source "@ + quoted(l)
            + "\nfi\n"@ + END_MARKER@;
        assert(block_text(l) =~= b + rest);
        assert(t =~= cleaned + "\n"@ + b + (rest + "\n"@));
        // the marker stands on a line of its own
        assert(t[k - 1] == '\n');
        assert(t[k + b.len()] == '\n');
        assert forall|m: int| k <= m < k + b.len() implies t[m] != '\n' by {
            assert(t[m] == b[m - k]);
        }
        lemma_newline_at(t, k, k + b.len());
        assert(line_from(t, k) =~= b);
        assert(lead_end(b, 0) == 0);
        assert(trail_end(b, 0, b.len() as int) == b.len());
        assert(trimmed(b) =~= b);
        lemma_line_after_newline(t, 0, k - 1);
        let ls = lines_from(t, 0);
        let i = choose|i: int| 0 <= i < ls.len() && ls[i] == line_from(t, k);
        lemma_scan_measure(ls, l);
        assert(trimmed(ls[i]) == b);
        lemma_lines_measure_bound(t, 0);
        lemma_stripped_len(t, l);
        assert(stripped(t, l).len() < t.len());
    }
}

proof fn lemma_escaped_no_newline(v: Seq<char>)
    requires
        forall|k: int| 0 <= k < v.len() ==> v[k] != '\n',
    ensures
        forall|k: int| 0 <= k < escaped(v).len() ==> escaped(v)[k] != '\n',
    decreases v.len(),
{
    if v.len() > 0 {
        let front = v.drop_last();
        assert forall|k: int| 0 <= k < front.len() implies front[k] != '\n' by {
            assert(front[k] == v[k]);
        }
        lemma_escaped_no_newline(front);
        let ef = escaped(front);
        let tail: Seq<char> = if v.last() == '\'' { seq!['\'', '\\', '\'', '\''] } else { seq![v.last()] };
        assert(escaped(v) == ef + tail);
        assert forall|k: int| 0 <= k < escaped(v).len() implies escaped(v)[k] != '\n' by {
            if k < ef.len() {
                assert(escaped(v)[k] == ef[k]);
            } else {
                assert(escaped(v)[k] == tail[k - ef.len()]);
            }
        }
    }
}

/// The guard line of the managed block, for the quoted launcher path `q`.
pub open spec fn guard_line(q: Seq<char>) -> Seq<char> {
    seq!['i', 'f', ' ', '[', ' ', '-', 'f', ' '] + q + seq![' ', ']', ';', ' ', 't', 'h', 'e', 'n']
}

/// The `source` line of the managed block, for the quoted launcher path `q`.
pub open spec fn block_source_line(q: Seq<char>) -> Seq<char> {
    seq![' ', ' ', 's', 'o', 'u', 'r', 'c', 'e', ' '] + q
}

/// The lines that setup appends: a blank line, then the managed block.
pub open spec fn appended_lines(l: Seq<char>) -> Seq<Seq<char>> {
    seq![
        Seq::<char>::empty(),
        BEGIN_MARKER@,
        LAUNCHER_HEADER@,
        guard_line(quoted(l)),
        block_source_line(quoted(l)),
        seq!['f', 'i'],
        END_MARKER@,
    ]
}

#[verifier::spinoff_prover]
#[verifier::rlimit(60)]
proof fn lemma_appended_lines(c: Seq<char>, l: Seq<char>)
    requires
        c.len() > 0,
        c[c.len() - 1] == '\n',
        forall|k: int| 0 <= k < l.len() ==> l[k] != '\n',
    ensures
        lines_from(c + "\n"@ + block_text(l) + "\n"@, 0) == lines_from(c, 0) + appended_lines(l),
{
    reveal_strlit("\n");
    reveal_strlit("# >>> cdtree shell integration >>>");
    reveal_strlit("# <<< cdtree shell integration <<<");
    reveal_strlit("# cdtree launcher");
    reveal_strlit("\nif [ -f ");
    reveal_strlit(" ]; then\n  source ");
    reveal_strlit("\nfi\n");
    let q = quoted(l);
    lemma_escaped_no_newline(l);
    assert forall|k: int| 0 <= k < q.len() implies q[k] != '\n' by {
        if 0 < k < q.len() - 1 {
            assert(q[k] == escaped(l)[k - 1]);
        }
    }
    let b = BEGIN_MARKER@;
    let h = LAUNCHER_HEADER@;
    let e = END_MARKER@;
    let if_line = guard_line(q);
    let src_line = block_source_line(q);
    let fi = seq!['f', 'i'];
    let empty = Seq::<char>::empty();
    let nl = seq!['\n'];
    let r7 = e + nl + empty;
    let r6 = fi + nl + r7;
    let r5 = src_line + nl + r6;
    let r4 = if_line + nl + r5;
    let r3 = h + nl + r4;
    let r2 = b + nl + r3;
    let r1 = empty + nl + r2;
    assert(c + "\n"@ + block_text(l) + "\n"@ =~= c + r1);
    assert forall|k: int| 0 <= k < if_line.len() implies if_line[k] != '\n' by {
        if 8 <= k < 8 + q.len() {
            assert(if_line[k] == q[k - 8]);
        }
    }
    assert forall|k: int| 0 <= k < src_line.len() implies src_line[k] != '\n' by {
        if 9 <= k {
            assert(src_line[k] == q[k - 9]);
        }
    }
    assert(src_line[src_line.len() - 1] == '\'');
    lemma_lines_cons(e, empty);
    assert(lines_from(empty, 0) =~= Seq::<Seq<char>>::empty());
    lemma_lines_cons(fi, r7);
    lemma_lines_cons(src_line, r6);
    lemma_lines_cons(if_line, r5);
    lemma_lines_cons(h, r4);
    lemma_lines_cons(b, r3);
    lemma_lines_cons(empty, r2);
    lemma_lines_prefix(c, r1, 0);
    assert(lines_from(r1, 0) =~= appended_lines(l));
}

proof fn lemma_scan_appended(lc: Seq<Seq<char>>, l: Seq<char>)
    requires
        forall|k: int| 0 <= k < lc.len() ==> !integration_line(#[trigger] lc[k], l),
    ensures
        scan(lc + appended_lines(l), l) == (false, false, false, lc.push(Seq::<char>::empty())),
{
    reveal_strlit("# >>> cdtree shell integration >>>");
    reveal_strlit("# <<< cdtree shell integration <<<");
    reveal_strlit("# cdtree launcher");
    let q = quoted(l);
    let b = BEGIN_MARKER@;
    let h = LAUNCHER_HEADER@;
    let e = END_MARKER@;
    let if_line = guard_line(q);
    let src_line = block_source_line(q);
    let fi = seq!['f', 'i'];
    let empty = Seq::<char>::empty();
    lemma_scan_of_clean_lines(lc, l);
    lemma_trimmed_plain(b);
    lemma_trimmed_plain(h);
    lemma_trimmed_plain(e);
    lemma_trimmed_plain(if_line);
    lemma_trimmed_plain(fi);
    let src_text = src_line.subrange(2, src_line.len() as int);
    assert(lead_end(src_line, 2) == 2);
    assert(lead_end(src_line, 1) == 2);
    assert(lead_end(src_line, 0) == 2);
    assert(src_line[src_line.len() - 1] == '\'');
    assert(trail_end(src_line, 2, src_line.len() as int) == src_line.len());
    assert(trimmed(src_line) == src_text);
    assert(trimmed(empty) =~= empty);
    let l1 = lc.push(empty);
    let l2 = l1.push(b);
    let l3 = l2.push(h);
    let l4 = l3.push(if_line);
    let l5 = l4.push(src_line);
    let l6 = l5.push(fi);
    let l7 = l6.push(e);
    assert(lc + appended_lines(l) =~= l7);
    assert(l1.drop_last() =~= lc);
    assert(l2.drop_last() =~= l1);
    assert(l3.drop_last() =~= l2);
    assert(l4.drop_last() =~= l3);
    assert(l5.drop_last() =~= l4);
    assert(l6.drop_last() =~= l5);
    assert(l7.drop_last() =~= l6);
    assert(!launcher_if_text(empty, l)) by {
        reveal_strlit("if [ -f \"");
        reveal_strlit("if [ -r \"");
        reveal_strlit("if [ -f ");
        reveal_strlit("if [ -r ");
        assert(("if [ -f \""@ + l + "\" ]; then"@).len() > 0);
        assert(("if [ -r \""@ + l + "\" ]; then"@).len() > 0);
        assert(("if [ -f "@ + q + " ]; then"@).len() > 0);
        assert(("if [ -r "@ + q + " ]; then"@).len() > 0);
    }
    assert(!launcher_source_text(empty, l)) by {
        reveal_strlit("source ");
        reveal_strlit("source \"");
        assert(source_text(l).len() > 0);
        assert(legacy_source_text(l).len() > 0);
    }
    assert(scan(l1, l) == (false, false, false, l1));
    assert(scan(l2, l) == (true, false, false, l1));
    assert(h != b && h != e);
    assert(scan(l3, l) == (true, false, false, l1));
    assert(if_line[0] != b[0] && if_line[0] != e[0]);
    assert(scan(l4, l) == (true, false, false, l1));
    assert(src_text[0] != b[0] && src_text[0] != e[0]);
    assert(scan(l5, l) == (true, false, false, l1));
    assert(fi.len() != b.len() && fi.len() != e.len());
    assert(scan(l6, l) == (true, false, false, l1));
    assert(e != b) by {
        assert(e[2] != b[2]);
    }
    assert(scan(l7, l) == (false, false, false, l1));
}

/// Removing the integration from a file that setup has just written gives
/// back what the file held, followed by the one blank line that setup put
/// before the managed block. This holds for a file that ends with a newline,
/// has no `\r` and none of the integration yet, and a launcher path without
/// a newline.
pub proof fn lemma_strip_undoes_setup(c: Seq<char>, l: Seq<char>)
    requires
        c.len() > 0,
        c[c.len() - 1] == '\n',
        forall|k: int| 0 <= k < c.len() ==> c[k] != '\r',
        forall|k: int| 0 <= k < lines_from(c, 0).len() ==> !integration_line(#[trigger] lines_from(c, 0)[k], l),
        forall|k: int| 0 <= k < l.len() ==> l[k] != '\n',
    ensures
        stripped(c + "\n"@ + block_text(l) + "\n"@, l) == c + "\n"@,
{
    reveal_strlit("\n");
    let t = c + "\n"@ + block_text(l) + "\n"@;
    let lc = lines_from(c, 0);
    let empty = Seq::<char>::empty();
    lemma_appended_lines(c, l);
    lemma_scan_appended(lc, l);
    assert(kept_lines(t, l) == lc.push(empty));
    assert(!dropped_unmanaged(t, l));
    lemma_lines_rejoin(c, 0);
    assert(c.subrange(0, c.len() as int) =~= c);
    assert(joined_lines(lc) + seq!['\n'] == c);
    lemma_newline_from(c, 0);
    assert(lc.len() > 0);
    lemma_joined_push(lc, empty);
    assert(joined_lines(lc.push(empty)) =~= c);
    assert(t[t.len() - 1] == '\n');
    assert(c.push('\n') =~= c + "\n"@);
}

/// Where a POSIX shell reading a word stands: outside quotes, inside single
/// quotes, or right after a backslash outside quotes.
pub enum QuoteMode {
    Plain,
    InQuotes,
    AfterBackslash,
}

/// Whether `c`, unquoted, would end a word or start an expansion, a
/// redirection, a comment or a pattern.
pub open spec fn sh_special(c: char) -> bool {
    ||| c == ' ' || c == '\t' || c == '\n'
    ||| c == '|' || c == '&' || c == ';' || c == '<' || c == '>' || c == '(' || c == ')'
    ||| c == '$' || c == '`' || c == '"'
    ||| c == '*' || c == '?' || c == '[' || c == '#' || c == '~' || c == '=' || c == '%'
}

/// One more character read by the POSIX quoting rules: inside single quotes
/// every character stands for itself until the closing quote; outside them
/// a backslash keeps the next character as it is (a backslash-newline pair
/// is removed); a special character means that the text is not read as one
/// literal word (the flag turns false).
pub open spec fn sh_step(st: (QuoteMode, bool, Seq<char>), c: char) -> (QuoteMode, bool, Seq<char>) {
    let (mode, ok, word) = st;
    match mode {
        QuoteMode::InQuotes => if c == '\'' { (QuoteMode::Plain, ok, word) } else { (QuoteMode::InQuotes, ok, word.push(c)) },
        QuoteMode::AfterBackslash => if c == '\n' { (QuoteMode::Plain, ok, word) } else { (QuoteMode::Plain, ok, word.push(c)) },
        QuoteMode::Plain => if c == '\'' {
            (QuoteMode::InQuotes, ok, word)
        } else if c == '\\' {
            (QuoteMode::AfterBackslash, ok, word)
        } else if sh_special(c) {
            (QuoteMode::Plain, false, word)
        } else {
            (QuoteMode::Plain, ok, word.push(c))
        },
    }
}

/// The reading state after the text `s`.
pub open spec fn sh_read(s: Seq<char>) -> (QuoteMode, bool, Seq<char>)
    decreases s.len(),
{
    if s.len() == 0 {
        (QuoteMode::Plain, true, Seq::empty())
    } else {
        sh_step(sh_read(s.drop_last()), s.last())
    }
}

/// The single literal word that a POSIX shell reads from `s`, if it reads
/// `s` as one word with nothing expanded.
pub open spec fn sh_word(s: Seq<char>) -> Option<Seq<char>> {
    let (mode, ok, word) = sh_read(s);
    if ok && mode is Plain { Some(word) } else { None }
}

proof fn lemma_read_escaped(v: Seq<char>)
    ensures
        sh_read(seq!['\''] + escaped(v)) == (QuoteMode::InQuotes, true, v),
    decreases v.len(),
{
    let open = seq!['\''];
    if v.len() == 0 {
        assert(escaped(v) =~= Seq::<char>::empty());
        assert(open + escaped(v) =~= open);
        assert(open.drop_last() =~= Seq::<char>::empty());
        assert(sh_read(Seq::<char>::empty()) == (QuoteMode::Plain, true, Seq::<char>::empty()));
        assert(v =~= Seq::<char>::empty());
    } else {
        let front = v.drop_last();
        lemma_read_escaped(front);
        let p = open + escaped(front);
        let c = v.last();
        assert(v =~= front.push(c));
        if c == '\'' {
            assert(escaped(v) == escaped(front) + seq!['\'', '\\', '\'', '\'']);
            let p1 = p.push('\'');
            let p2 = p1.push('\\');
            let p3 = p2.push('\'');
            let p4 = p3.push('\'');
            assert(open + escaped(v) =~= p4);
            assert(p1.drop_last() =~= p);
            assert(p2.drop_last() =~= p1);
            assert(p3.drop_last() =~= p2);
            assert(p4.drop_last() =~= p3);
            assert(sh_read(p1) == (QuoteMode::Plain, true, front));
            assert(sh_read(p2) == (QuoteMode::AfterBackslash, true, front));
            assert(sh_read(p3) == (QuoteMode::Plain, true, front.push(c)));
            assert(sh_read(p4) == (QuoteMode::InQuotes, true, front.push(c)));
        } else {
            assert(escaped(v) == escaped(front).push(c));
            let p1 = p.push(c);
            assert(open + escaped(v) =~= p1);
            assert(p1.drop_last() =~= p);
        }
    }
}

/// A POSIX shell reads the quoted text back as exactly one word, the value
/// itself, with nothing expanded.
pub proof fn lemma_quoted_reads_back(v: Seq<char>)
    ensures
        sh_word(quoted(v)) == Some(v),
{
    lemma_read_escaped(v);
    let p = seq!['\''] + escaped(v);
    assert(quoted(v) =~= p.push('\''));
    assert(p.push('\'').drop_last() =~= p);
}

} // verus!
