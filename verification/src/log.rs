//! The reference logs: the line recorded for a commit or a new branch, where it is
//! recorded, and how `log` displays the recorded lines.
use vstd::prelude::*;
use crate::color_utils::{
    bold_code, dimmed_code, fg_code, paint, paint_bold, paint_dimmed, shown, Hue,
};
use crate::head::{current_branch, current_ref_path, head_after, head_branch_prefix, ref_colon};
use crate::text::{
    chars_of, decimal, decimal_chars, digit_char, extend_chars, extend_str, has_char,
    is_white_space, join, join_with, lemma_find_from_at, lemma_word_len_at, lemma_words_push_ws,
    lines, replace_all,
    replace_chars, split_lines, split_whitespace, string_of, strip_cr, trim_start_ws, trim_str,
    trim_ws, words,
};

verus! {

/// What a log line records: the new commit, its parent (none for a first commit), the
/// working directory, the time in seconds since the epoch, and the message.
pub struct CommitArgs<'info> {
    pub new_commit_hash: &'info str,
    pub parent_commit_hash: Option<String>,
    pub dir_name: &'info str,
    pub time: u64,
    pub message: String,
}

/// The hash that stands for "no parent": forty zeros.
pub open spec fn zero_hash() -> Seq<char> {
    Seq::new(40, |i: int| '0')
}

/// The time zone written into every log line: "+5:30".
pub open spec fn log_zone() -> Seq<char> {
    seq!['+', '5', ':', '3', '0']
}

/// A log line: new hash, parent hash (forty zeros for none), directory, time, zone and
/// message, separated by single spaces, ended by a line feed.
pub open spec fn commit_log_line(
    hash: Seq<char>,
    parent: Option<Seq<char>>,
    dir: Seq<char>,
    time: u64,
    message: Seq<char>,
) -> Seq<char> {
    let p = match parent {
        Some(p) => p,
        None => zero_hash(),
    };
    hash + seq![' '] + p + seq![' '] + dir + seq![' '] + decimal(time as nat) + seq![' ']
        + log_zone() + seq![' '] + message + seq!['\n']
}

/// The parent in a log line's arguments, as text.
pub open spec fn parent_view(p: Option<String>) -> Option<Seq<char>> {
    match p {
        Some(s) => Some(s@),
        None => None,
    }
}

/// Forty zeros.
fn zero_hash_chars() -> (r: Vec<char>)
    ensures
        r@ == zero_hash(),
{
    let mut r: Vec<char> = Vec::new();
    let mut i: usize = 0;
    while i < 40
        invariant
            i <= 40,
            r@ == Seq::new(i as nat, |k: int| '0'),
        decreases 40 - i,
    {
        r.push('0');
        i = i + 1;
        assert(r@ =~= Seq::new(i as nat, |k: int| '0'));
    }
    r
}

/// The log line for the given arguments.
pub fn form_commit_log(args: CommitArgs) -> (r: String)
    ensures
        r@ == commit_log_line(
            args.new_commit_hash@,
            parent_view(args.parent_commit_hash),
            args.dir_name@,
            args.time,
            args.message@,
        ),
{
    let mut v = chars_of(args.new_commit_hash);
    v.push(' ');
    match &args.parent_commit_hash {
        Some(p) => extend_str(&mut v, p.as_str()),
        None => {
            let z = zero_hash_chars();
            extend_chars(&mut v, z.as_slice());
        },
    }
    v.push(' ');
    extend_str(&mut v, args.dir_name);
    v.push(' ');
    let t = decimal_chars(args.time);
    extend_chars(&mut v, t.as_slice());
    v.push(' ');
    v.push('+');
    v.push('5');
    v.push(':');
    v.push('3');
    v.push('0');
    v.push(' ');
    extend_str(&mut v, args.message.as_str());
    v.push('\n');
    assert(v@ =~= commit_log_line(
        args.new_commit_hash@,
        parent_view(args.parent_commit_hash),
        args.dir_name@,
        args.time,
        args.message@,
    ));
    string_of(v.as_slice())
}

/// Whether `r` is the message for a new branch: "BRANCH FROM" bold bright cyan, a
/// space, the current branch in yellow, " -> ", the new branch bold green.
pub open spec fn is_branch_message(r: Seq<char>, new_branch: Seq<char>, curr_branch: Seq<char>) -> bool {
    exists|a: Seq<char>, b: Seq<char>, c: Seq<char>|
        shown(a, "BRANCH FROM"@, bold_code(Hue::BrightCyan)) && shown(b, curr_branch, fg_code(Hue::Yellow))
            && shown(c, new_branch, bold_code(Hue::Green)) && r == a + seq![' '] + b + seq![
            ' ',
            '-',
            '>',
            ' ',
        ] + c
}

/// The message recorded when `new_branch` is made from `curr_branch`.
pub fn branch_created_message(new_branch: &str, curr_branch: &str) -> (r: String)
    ensures
        is_branch_message(r@, new_branch@, curr_branch@),
{
    let a = paint_bold("BRANCH FROM", Hue::BrightCyan);
    let b = paint(curr_branch, Hue::Yellow);
    let c = paint_bold(new_branch, Hue::Green);
    let mut v = chars_of(a.as_str());
    v.push(' ');
    extend_str(&mut v, b.as_str());
    v.push(' ');
    v.push('-');
    v.push('>');
    v.push(' ');
    extend_str(&mut v, c.as_str());
    assert(v@ =~= a@ + seq![' '] + b@ + seq![' ', '-', '>', ' '] + c@);
    string_of(v.as_slice())
}

/// Whether `r` is the message recorded for a commit: "commit :" bold bright blue, a
/// space, the commit message bold white.
pub open spec fn is_commit_message(r: Seq<char>, msg: Seq<char>) -> bool {
    exists|a: Seq<char>, b: Seq<char>|
        shown(a, "commit :"@, bold_code(Hue::BrightBlue)) && shown(b, msg, bold_code(Hue::White))
            && r == a + seq![' '] + b
}

/// The message recorded for a commit with the message `msg`.
pub fn commit_message(msg: &str) -> (r: String)
    ensures
        is_commit_message(r@, msg@),
{
    let a = paint_bold("commit :", Hue::BrightBlue);
    let b = paint_bold(msg, Hue::White);
    let mut v = chars_of(a.as_str());
    v.push(' ');
    extend_str(&mut v, b.as_str());
    assert(v@ =~= a@ + seq![' '] + b@);
    string_of(v.as_slice())
}

/// A line to append to a log file, and that file as path components below the
/// repository directory (to be joined in order).
pub struct LogAppend {
    pub path: Vec<String>,
    pub line: String,
}

/// The values of path components.
pub open spec fn path_view(p: Seq<String>) -> Seq<Seq<char>> {
    p.map_values(|s: String| s@)
}

/// What recording a commit appends: to "logs/" and the current branch's reference path
/// (read from HEAD), the log line of the commit with its commit message.
pub fn log_commit(
    head: &str,
    new_commit_hash: &str,
    parent_commit_hash: Option<String>,
    message: &str,
    dir_name: &str,
    time: u64,
) -> (r: LogAppend)
    ensures
        path_view(r.path@) == seq!["logs/"@, head_after(head@, ref_colon())],
        exists|m: Seq<char>|
            is_commit_message(m, message@) && r.line@ == commit_log_line(
                new_commit_hash@,
                parent_view(parent_commit_hash),
                dir_name@,
                time,
                m,
            ),
{
    let branch_path = current_ref_path(head);
    let m = commit_message(message);
    let ghost mv = m@;
    let ghost pv = parent_view(parent_commit_hash);
    let line = form_commit_log(
        CommitArgs { new_commit_hash, parent_commit_hash, dir_name, time, message: m },
    );
    let mut path: Vec<String> = Vec::new();
    path.push(string_of(chars_of("logs/").as_slice()));
    path.push(branch_path);
    assert(path_view(path@) =~= seq!["logs/"@, head_after(head@, ref_colon())]);
    assert(is_commit_message(mv, message@));
    LogAppend { path, line }
}

/// The forty zeros recorded as parent of a branch creation.
fn zero_hash_string() -> (r: String)
    ensures
        r@ == zero_hash(),
{
    let z = zero_hash_chars();
    string_of(z.as_slice())
}

/// What recording a new branch appends: to "logs/refs/heads" and the new branch, a log
/// line whose hash is the current commit (the trimmed content of the current branch's
/// reference file), whose parent is forty zeros, and whose message names the current
/// branch (read from HEAD) and the new one.
pub fn log_branch(
    head: &str,
    current_ref_content: &str,
    new_branch: &str,
    dir_name: &str,
    time: u64,
) -> (r: LogAppend)
    ensures
        path_view(r.path@) == seq!["logs/refs/heads"@, new_branch@],
        exists|m: Seq<char>|
            is_branch_message(m, new_branch@, head_after(head@, head_branch_prefix()))
                && r.line@ == commit_log_line(
                trim_ws(current_ref_content@),
                Some(zero_hash()),
                dir_name@,
                time,
                m,
            ),
{
    let current_hash = trim_str(current_ref_content);
    let current_name = current_branch(head);
    let m = branch_created_message(new_branch, current_name.as_str());
    let ghost mv = m@;
    let line = form_commit_log(
        CommitArgs {
            new_commit_hash: current_hash.as_str(),
            parent_commit_hash: Some(zero_hash_string()),
            dir_name,
            time,
            message: m,
        },
    );
    let mut path: Vec<String> = Vec::new();
    path.push(string_of(chars_of("logs/refs/heads").as_slice()));
    path.push(string_of(chars_of(new_branch).as_slice()));
    assert(path_view(path@) =~= seq!["logs/refs/heads"@, new_branch@]);
    LogAppend { path, line }
}

/// The fields of a displayed log line, when it has at least six words: hash, parent,
/// directory, time, zone, and the remaining words joined by single spaces.
pub open spec fn log_fields(line: Seq<char>) -> Option<Seq<Seq<char>>> {
    let ws = words(line);
    if ws.len() >= 6 {
        Some(ws.take(5).push(join(ws.skip(5), seq![' '])))
    } else {
        None
    }
}

/// Whether `r` is how `log` shows one line of a log file. A line with six or more words
/// shows its fields on separate lines: the hash bold bright green; the parent dimmed
/// when it is forty zeros, yellow otherwise; the time magenta and the zone yellow; the
/// directory cyan; the message white; then an empty line. Any other line is shown as it
/// is.
pub open spec fn shows_log_line(r: Seq<char>, line: Seq<char>) -> bool {
    match log_fields(line) {
        None => r == line + seq!['\n'],
        Some(f) => exists|h: Seq<char>, p: Seq<char>, t: Seq<char>, z: Seq<char>, d: Seq<char>, m: Seq<char>|
            {
                &&& shown(h, f[0], bold_code(Hue::BrightGreen))
                &&& (if f[1] == zero_hash() {
                    shown(p, f[1], dimmed_code())
                } else {
                    shown(p, f[1], fg_code(Hue::Yellow))
                })
                &&& shown(d, f[2], fg_code(Hue::Cyan))
                &&& shown(t, f[3], fg_code(Hue::Magenta))
                &&& shown(z, f[4], fg_code(Hue::Yellow))
                &&& shown(m, f[5], fg_code(Hue::White))
                &&& r == log_block(h, p, t, z, d, m)
            },
    }
}

/// The block that shows a log line's fields, each already coloured: hash, parent, time
/// and zone, directory, message, each line ended by a space, then an empty line.
pub open spec fn log_block(
    h: Seq<char>,
    p: Seq<char>,
    t: Seq<char>,
    z: Seq<char>,
    d: Seq<char>,
    m: Seq<char>,
) -> Seq<char> {
    h + seq![' ', '\n'] + p + seq![' ', '\n'] + t + seq![' '] + z + seq![' ', '\n'] + d + seq![' ', '\n']
        + m + seq![' ', '\n', '\n']
}

/// Assembles the block of a log line from its coloured fields.
fn assemble_block(h: &str, p: &str, t: &str, z: &str, d: &str, m: &str) -> (r: String)
    ensures
        r@ == log_block(h@, p@, t@, z@, d@, m@),
{
    let mut v = chars_of(h);
    v.push(' ');
    v.push('\n');
    extend_str(&mut v, p);
    v.push(' ');
    v.push('\n');
    extend_str(&mut v, t);
    v.push(' ');
    extend_str(&mut v, z);
    v.push(' ');
    v.push('\n');
    extend_str(&mut v, d);
    v.push(' ');
    v.push('\n');
    extend_str(&mut v, m);
    v.push(' ');
    v.push('\n');
    v.push('\n');
    assert(v@ =~= log_block(h@, p@, t@, z@, d@, m@));
    string_of(v.as_slice())
}

/// Replacing every occurrence of a pattern by itself changes nothing.
pub proof fn lemma_replace_self(s: Seq<char>, pat: Seq<char>)
    ensures
        replace_all(s, pat, pat) == s,
    decreases s.len(),
{
    if s.len() > 0 {
        if pat.len() > 0 && crate::text::starts_with(s, pat) {
            lemma_replace_self(s.skip(pat.len() as int), pat);
            assert(pat + s.skip(pat.len() as int) =~= s);
        } else {
            lemma_replace_self(s.drop_first(), pat);
            assert(seq![s[0]] + s.drop_first() =~= s);
        }
    }
}

/// How `log` shows one line of a log file.
///
/// The message passes through two replacements, of "commit :" and of "BRANCH FROM",
/// each by the text of that phrase painted with `colored` (bold bright blue, bold bright
/// cyan). A `&ColoredString` handed to `str::replace` as the replacement converts to
/// `&str` through `ColoredString`'s `Deref`, which gives the uncoloured input
/// (`colored` 2.2.0, `src/lib.rs`, `impl Deref for ColoredString`). So each phrase is
/// replaced by itself and the message is painted white as it stands; the contract
/// (`shows_log_line`) says exactly that.
pub fn show_log_line(line: &[char]) -> (r: String)
    ensures
        shows_log_line(r@, line@),
{
    let mut parts = split_whitespace(line);
    let ghost ws = words(line@);
    assert(parts@.map_values(|w: Vec<char>| w@).len() == parts@.len());
    if parts.len() < 6 {
        let mut v = sub_chars(line);
        v.push('\n');
        assert(ws.len() < 6);
        assert(log_fields(line@) is None);
        assert(v@ == line@ + seq!['\n']);
        return string_of(v.as_slice());
    }
    assert(parts@[0]@ == ws[0]);
    assert(parts@[1]@ == ws[1]);
    assert(parts@[2]@ == ws[2]);
    assert(parts@[3]@ == ws[3]);
    assert(parts@[4]@ == ws[4]);
    let hash = paint_bold(string_of(parts[0].as_slice()).as_str(), Hue::BrightGreen);
    let zeros = zero_hash_chars();
    let parent_text = string_of(parts[1].as_slice());
    let is_zero = crate::text::chars_equal(parts[1].as_slice(), zeros.as_slice());
    let parent = if is_zero {
        paint_dimmed(parent_text.as_str())
    } else {
        paint(parent_text.as_str(), Hue::Yellow)
    };
    let dir = paint(string_of(parts[2].as_slice()).as_str(), Hue::Cyan);
    let time = paint(string_of(parts[3].as_slice()).as_str(), Hue::Magenta);
    let zone = paint(string_of(parts[4].as_slice()).as_str(), Hue::Yellow);
    let ghost all = parts@;
    let rest = parts.split_off(5);
    assert(rest@ =~= all.subrange(5, all.len() as int));
    assert(rest@.map_values(|w: Vec<char>| w@) =~= ws.skip(5));
    let mut sp: Vec<char> = Vec::new();
    sp.push(' ');
    let message = join_with(rest.as_slice(), sp.as_slice());
    assert(sp@ =~= seq![' ']);
    let commit_pat = chars_of("commit :");
    let branch_pat = chars_of("BRANCH FROM");
    proof {
        reveal_strlit("commit :");
        reveal_strlit("BRANCH FROM");
    }
    let once = replace_chars(message.as_slice(), commit_pat.as_slice(), commit_pat.as_slice());
    let twice = replace_chars(once.as_slice(), branch_pat.as_slice(), branch_pat.as_slice());
    proof {
        lemma_replace_self(message@, commit_pat@);
        lemma_replace_self(once@, branch_pat@);
    }
    let msg = paint(string_of(twice.as_slice()).as_str(), Hue::White);
    let r = assemble_block(
        hash.as_str(),
        parent.as_str(),
        time.as_str(),
        zone.as_str(),
        dir.as_str(),
        msg.as_str(),
    );
    proof {
        let f = log_fields(line@).unwrap();
        assert(f[0] == ws[0]);
        assert(f[1] == ws[1]);
        assert(f[2] == ws[2]);
        assert(f[3] == ws[3]);
        assert(f[4] == ws[4]);
        assert(f[5] == join(ws.skip(5), seq![' ']));
    }
    r
}

/// A copy of the characters.
fn sub_chars(s: &[char]) -> (r: Vec<char>)
    ensures
        r@ == s@,
{
    let r = crate::text::sub_vec(s, 0, s.len());
    assert(s@.subrange(0, s@.len() as int) =~= s@);
    r
}

/// Whether `r` is how `log` shows the lines `ls`, one after another.
pub open spec fn shows_log_lines(r: Seq<char>, ls: Seq<Seq<char>>) -> bool
    decreases ls.len(),
{
    if ls.len() == 0 {
        r.len() == 0
    } else {
        exists|a: Seq<char>, b: Seq<char>|
            shows_log_lines(a, ls.drop_last()) && shows_log_line(b, ls.last()) && r == a + b
    }
}

/// What `log` prints for the content of the current branch's log file: each of its
/// lines shown in turn.
pub fn log(log_content: &str) -> (r: String)
    ensures
        shows_log_lines(r@, lines(log_content@)),
{
    let c = chars_of(log_content);
    let ls = split_lines(c.as_slice());
    let ghost lv = ls@.map_values(|w: Vec<char>| w@);
    let mut out: Vec<char> = Vec::new();
    let mut i: usize = 0;
    assert(lv.take(0) =~= Seq::<Seq<char>>::empty());
    while i < ls.len()
        invariant
            i <= ls@.len(),
            lv == ls@.map_values(|w: Vec<char>| w@),
            lv == lines(log_content@),
            shows_log_lines(out@, lv.take(i as int)),
        decreases ls.len() - i,
    {
        let shown_line = show_log_line(ls[i].as_slice());
        let ghost before = out@;
        extend_str(&mut out, shown_line.as_str());
        proof {
            assert(lv[i as int] == ls@[i as int]@);
            assert(lv.take(i + 1).drop_last() =~= lv.take(i as int));
            assert(lv.take(i + 1).last() == lv[i as int]);
            assert(shows_log_line(shown_line@, lv[i as int]));
            assert(out@ == before + shown_line@);
        }
        i = i + 1;
    }
    assert(lv.take(ls@.len() as int) =~= lv);
    string_of(out.as_slice())
}

/// The line `log` prints when the current branch has no log yet, bold cyan.
pub fn no_commits_message() -> (r: String)
    ensures
        shown(r@, "ℹ No commits yet. Make your first commit with: it commit -m \"message\""@, bold_code(Hue::Cyan)),
{
    paint_bold("ℹ No commits yet. Make your first commit with: it commit -m \"message\"", Hue::Cyan)
}

/// Whether a text is a single word: non-empty, without whitespace.
pub open spec fn single_word(w: Seq<char>) -> bool {
    w.len() > 0 && forall|i: int| 0 <= i < w.len() ==> !is_white_space(#[trigger] w[i])
}

/// A word followed by a space and more text is the first word of it.
pub proof fn lemma_words_cons(w: Seq<char>, rest: Seq<char>)
    requires
        single_word(w),
    ensures
        words(w + seq![' '] + rest) == seq![w] + words(rest),
{
    let s = w + seq![' '] + rest;
    assert(s[0] == w[0]);
    assert(trim_start_ws(s) == s);
    assert forall|k: int| 0 <= k < w.len() implies !is_white_space(#[trigger] s[k]) by {
        assert(s[k] == w[k]);
    }
    assert(s[w.len() as int] == ' ');
    assert(is_white_space(' '));
    lemma_word_len_at(s, w.len() as int);
    assert(s.take(w.len() as int) =~= w);
    let tail = s.skip(w.len() as int);
    assert(tail =~= seq![' '] + rest);
    assert(tail[0] == ' ');
    assert(tail.drop_first() =~= rest);
    assert(trim_start_ws(tail) == trim_start_ws(rest));
    assert(words(tail) == words(rest));
}

/// A decimal numeral is a single word.
pub proof fn lemma_decimal_word(n: nat)
    ensures
        single_word(decimal(n)),
    decreases n,
{
    if n >= 10 {
        lemma_decimal_word(n / 10);
        let d = decimal(n);
        assert forall|i: int| 0 <= i < d.len() implies !is_white_space(#[trigger] d[i]) by {
            if i < d.len() - 1 {
                assert(d[i] == decimal(n / 10)[i]);
            } else {
                assert(d[i] == digit_char(n % 10));
            }
        }
    }
}

/// The fields before the message are single words.
proof fn lemma_fixed_fields_words(p: Seq<char>, time: u64)
    ensures
        single_word(zero_hash()),
        single_word(decimal(time as nat)),
        single_word(log_zone()),
{
    assert(single_word(zero_hash())) by {
        assert forall|i: int| 0 <= i < zero_hash().len() implies !is_white_space(
            #[trigger] zero_hash()[i],
        ) by {
            assert(zero_hash()[i] == '0');
        }
    }
    lemma_decimal_word(time as nat);
    assert(single_word(log_zone())) by {
        assert forall|i: int| 0 <= i < 5 implies !is_white_space(#[trigger] log_zone()[i]) by {}
    }
}

/// A text without a line feed, followed by one, is one line: the text without a
/// carriage return at its end.
proof fn lemma_one_line(body: Seq<char>)
    requires
        !has_char(body, '\n'),
    ensures
        lines(body + seq!['\n']) == seq![strip_cr(body)],
{
    let line = body + seq!['\n'];
    assert forall|j: int| 0 <= j < body.len() implies line[j] != '\n' by {
        assert(line[j] == body[j]);
        if body[j] == '\n' {
            assert(has_char(body, '\n'));
        }
    }
    lemma_find_from_at(line, 0, body.len() as int, '\n');
    assert(line.take(body.len() as int) =~= body);
    assert(line.skip(body.len() as int + 1) =~= Seq::<char>::empty());
    assert(lines(Seq::<char>::empty()) == Seq::<Seq<char>>::empty());
    assert(lines(line) =~= seq![strip_cr(body)]);
}

/// Law of the log: `log` shows the fields of a line that `form_commit_log` wrote, that
/// is the hash, the parent, the directory, the time and the zone, and the words of the
/// message joined by single spaces; provided the hash, the parent and the directory
/// are single words, and the message has at least one word and no line feed.
pub proof fn law_log_shows_formed_line(
    hash: Seq<char>,
    parent: Option<Seq<char>>,
    dir: Seq<char>,
    time: u64,
    message: Seq<char>,
)
    requires
        single_word(hash),
        parent matches Some(p) ==> single_word(p),
        single_word(dir),
        words(message).len() > 0,
        !has_char(message, '\n'),
    ensures
        ({
            let p = match parent {
                Some(p) => p,
                None => zero_hash(),
            };
            let line = commit_log_line(hash, parent, dir, time, message);
            &&& lines(line).len() == 1
            &&& log_fields(lines(line)[0]) == Some(
                seq![hash, p, dir, decimal(time as nat), log_zone(), join(words(message), seq![' '])],
            )
        }),
{
    let p = match parent {
        Some(p) => p,
        None => zero_hash(),
    };
    lemma_fixed_fields_words(p, time);
    assert(single_word(p));
    let dec = decimal(time as nat);
    let pre = hash + seq![' '] + p + seq![' '] + dir + seq![' '] + dec + seq![' '] + log_zone()
        + seq![' '];
    let body = pre + message;
    let line = commit_log_line(hash, parent, dir, time, message);
    assert(line =~= body + seq!['\n']);
    assert(!has_char(body, '\n')) by {
        if has_char(body, '\n') {
            let j = choose|j: int| 0 <= j < body.len() && body[j] == '\n';
            if j >= pre.len() {
                assert(message[j - pre.len()] == '\n');
            } else {
                assert(pre[j] == '\n');
                lemma_no_line_feed_in_fields(hash, p, dir, dec);
                assert(false);
            }
        }
    }
    lemma_one_line(body);
    assert(message.len() > 0) by {
        if message.len() == 0 {
            assert(trim_start_ws(message) == message);
        }
    }
    let m = strip_cr(message);
    let b2 = strip_cr(body);
    if message.last() == '\r' {
        assert(body.last() == message.last());
        assert(b2 =~= pre + m);
        assert(message =~= m.push('\r'));
        lemma_words_push_ws(m, '\r');
    } else {
        assert(body.last() == message.last());
        assert(b2 == body);
        assert(m == message);
    }
    assert(words(m) == words(message));
    lemma_formed_line_words(hash, p, dir, dec, m);
    assert(b2 =~= hash + seq![' '] + (p + seq![' '] + (dir + seq![' '] + (dec + seq![' '] + (log_zone()
        + seq![' '] + m)))));
}

/// The single-word fields hold no line feed.
proof fn lemma_no_line_feed_in_fields(hash: Seq<char>, p: Seq<char>, dir: Seq<char>, dec: Seq<char>)
    requires
        single_word(hash),
        single_word(p),
        single_word(dir),
        single_word(dec),
        single_word(log_zone()),
    ensures
        !has_char(
            hash + seq![' '] + p + seq![' '] + dir + seq![' '] + dec + seq![' '] + log_zone() + seq![' '],
            '\n',
        ),
{
    let pre = hash + seq![' '] + p + seq![' '] + dir + seq![' '] + dec + seq![' '] + log_zone()
        + seq![' '];
    assert(is_white_space('\n'));
    if has_char(pre, '\n') {
        let j = choose|j: int| 0 <= j < pre.len() && pre[j] == '\n';
        let a = hash.len() as int;
        let b = a + 1 + p.len();
        let c = b + 1 + dir.len();
        let d = c + 1 + dec.len();
        if j < a {
            assert(pre[j] == hash[j]);
        } else if j == a {
            assert(pre[j] == ' ');
        } else if j < b {
            assert(pre[j] == p[j - a - 1]);
        } else if j == b {
            assert(pre[j] == ' ');
        } else if j < c {
            assert(pre[j] == dir[j - b - 1]);
        } else if j == c {
            assert(pre[j] == ' ');
        } else if j < d {
            assert(pre[j] == dec[j - c - 1]);
        } else if j == d {
            assert(pre[j] == ' ');
        } else if j < d + 1 + 5 {
            assert(pre[j] == log_zone()[j - d - 1]);
        } else {
            assert(pre[j] == ' ');
        }
    }
}

/// The words of a formed line: the five single-word fields, then the message's words.
proof fn lemma_formed_line_words(hash: Seq<char>, p: Seq<char>, dir: Seq<char>, dec: Seq<char>, m: Seq<char>)
    requires
        single_word(hash),
        single_word(p),
        single_word(dir),
        single_word(dec),
        single_word(log_zone()),
        words(m).len() > 0,
    ensures
        log_fields(hash + seq![' '] + (p + seq![' '] + (dir + seq![' '] + (dec + seq![' '] + (log_zone()
            + seq![' '] + m))))) == Some(seq![hash, p, dir, dec, log_zone(), join(words(m), seq![' '])]),
{
    let r3 = log_zone() + seq![' '] + m;
    let r2 = dec + seq![' '] + r3;
    let r1 = dir + seq![' '] + r2;
    let r0 = p + seq![' '] + r1;
    lemma_words_cons(log_zone(), m);
    lemma_words_cons(dec, r3);
    lemma_words_cons(dir, r2);
    lemma_words_cons(p, r1);
    lemma_words_cons(hash, r0);
    let ws = words(hash + seq![' '] + r0);
    assert(ws =~= seq![hash, p, dir, dec, log_zone()] + words(m));
    assert(ws.take(5) =~= seq![hash, p, dir, dec, log_zone()]);
    assert(ws.skip(5) =~= words(m));
}

} // verus!
