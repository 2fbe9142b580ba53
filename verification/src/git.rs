//! The git segment's data, read from the output of
//! `git status --porcelain=v2 --branch`.

use vstd::prelude::*;
use vstd::utf8::{decode_utf8, valid_utf8};
use crate::text::{
    copy_range, fields, has_prefix, line_scan, lines, parse_i64, parse_int, push_all, same_chars,
    split_fields, split_lines, starts_with, string_from_chars, to_chars, trim, trimmed, views,
    Separator,
};

verus! {

/// What the status line shows of a repository.
#[derive(Debug, PartialEq, Eq)]
pub struct GitInfo {
    pub branch: String,
    pub dirty: bool,
    pub ahead: i64,
    pub behind: i64,
}

/// The contents of a [`GitInfo`].
pub struct GitView {
    pub branch: Seq<char>,
    pub dirty: bool,
    pub ahead: i64,
    pub behind: i64,
}

impl View for GitInfo {
    type V = GitView;

    open spec fn view(&self) -> GitView {
        GitView { branch: self.branch@, dirty: self.dirty, ahead: self.ahead, behind: self.behind }
    }
}

impl Default for GitInfo {
    fn default() -> (g: GitInfo)
        ensures
            g@ == (GitView { branch: seq![], dirty: false, ahead: 0, behind: 0 }),
    {
        GitInfo { branch: String::new(), dirty: false, ahead: 0, behind: 0 }
    }
}

/// The header line that names the branch.
pub open spec fn head_tag() -> Seq<char> {
    seq!['#', ' ', 'b', 'r', 'a', 'n', 'c', 'h', '.', 'h', 'e', 'a', 'd', ' ']
}

/// The header line that gives the commit id.
pub open spec fn oid_tag() -> Seq<char> {
    seq!['#', ' ', 'b', 'r', 'a', 'n', 'c', 'h', '.', 'o', 'i', 'd', ' ']
}

/// The header line that counts commits ahead of and behind upstream.
pub open spec fn ab_tag() -> Seq<char> {
    seq!['#', ' ', 'b', 'r', 'a', 'n', 'c', 'h', '.', 'a', 'b', ' ']
}

/// The branch name git reports for a detached head.
pub open spec fn detached() -> Seq<char> {
    seq!['(', 'd', 'e', 't', 'a', 'c', 'h', 'e', 'd', ')']
}

/// How many characters of the commit id a detached head shows.
pub const SHORT_OID: usize = 7;

/// What has been read of the status output so far.
pub struct StatusScan {
    pub branch: Seq<char>,
    pub oid: Seq<char>,
    pub dirty: bool,
    pub ahead: i64,
    pub behind: i64,
}

/// Nothing read yet.
pub open spec fn scan_start() -> StatusScan {
    StatusScan { branch: seq![], oid: seq![], dirty: false, ahead: 0, behind: 0 }
}

/// A count as `parse().unwrap_or(0)` reads it.
pub open spec fn count_or_zero(s: Seq<char>) -> i64 {
    match parse_i64(s) {
        Some(v) => v,
        None => 0,
    }
}

/// One word of the `branch.ab` line: `+n` sets the count ahead, `-n` the
/// count behind; other words change nothing.
pub open spec fn apply_count(st: StatusScan, word: Seq<char>) -> StatusScan {
    if has_prefix(word, seq!['+']) {
        StatusScan { ahead: count_or_zero(word.drop_first()), ..st }
    } else if has_prefix(word, seq!['-']) {
        StatusScan { behind: count_or_zero(word.drop_first()), ..st }
    } else {
        st
    }
}

/// The words of the `branch.ab` line, left to right.
pub open spec fn apply_counts(st: StatusScan, words: Seq<Seq<char>>) -> StatusScan
    decreases words.len(),
{
    if words.len() == 0 {
        st
    } else {
        apply_count(apply_counts(st, words.drop_last()), words.last())
    }
}

/// One line of the status output.
pub open spec fn apply_line(st: StatusScan, line: Seq<char>) -> StatusScan {
    if has_prefix(line, head_tag()) {
        StatusScan { branch: trim(line.skip(head_tag().len() as int)), ..st }
    } else if has_prefix(line, oid_tag()) {
        StatusScan { oid: trim(line.skip(oid_tag().len() as int)), ..st }
    } else if has_prefix(line, ab_tag()) {
        apply_counts(st, fields(line.skip(ab_tag().len() as int), Separator::Whitespace))
    } else if !has_prefix(line, seq!['#']) && line.len() > 0 {
        StatusScan { dirty: true, ..st }
    } else {
        st
    }
}

/// The lines of the status output, first to last.
pub open spec fn apply_lines(st: StatusScan, ls: Seq<Seq<char>>) -> StatusScan
    decreases ls.len(),
{
    if ls.len() == 0 {
        st
    } else {
        apply_line(apply_lines(st, ls.drop_last()), ls.last())
    }
}

/// The branch shown: `@` and the short commit id for a detached head.
pub open spec fn shown_branch(branch: Seq<char>, oid: Seq<char>) -> Seq<char> {
    if branch == detached() {
        seq!['@'] + oid.take(if oid.len() < SHORT_OID { oid.len() as int } else { SHORT_OID as int })
    } else {
        branch
    }
}

/// What the porcelain text `s` says of the repository: nothing where no
/// line names a branch (or the last one that does names an empty one).
pub open spec fn summary(s: Seq<char>) -> Option<GitView> {
    let st = apply_lines(scan_start(), lines(s));
    if st.branch.len() == 0 {
        None
    } else {
        Some(
            GitView {
                branch: shown_branch(st.branch, st.oid),
                dirty: st.dirty,
                ahead: st.ahead,
                behind: st.behind,
            },
        )
    }
}

/// What has been read so far, in executable form.
struct Progress {
    branch: Vec<char>,
    oid: Vec<char>,
    dirty: bool,
    ahead: i64,
    behind: i64,
}

impl View for Progress {
    type V = StatusScan;

    closed spec fn view(&self) -> StatusScan {
        StatusScan {
            branch: self.branch@,
            oid: self.oid@,
            dirty: self.dirty,
            ahead: self.ahead,
            behind: self.behind,
        }
    }
}

/// Reads one word of the `branch.ab` line.
fn read_count(p: &mut Progress, word: &[char])
    ensures
        final(p)@ == apply_count(old(p)@, word@),
{
    let plus: Vec<char> = vec!['+'];
    let minus: Vec<char> = vec!['-'];
    assert(plus@ == seq!['+']);
    assert(minus@ == seq!['-']);
    if starts_with(word, &plus) {
        let digits: Vec<char> = copy_range(word, 1, word.len());
        assert(digits@ =~= word@.drop_first());
        p.ahead = match parse_int(&digits) {
            Some(v) => v,
            None => 0,
        };
    } else if starts_with(word, &minus) {
        let digits: Vec<char> = copy_range(word, 1, word.len());
        assert(digits@ =~= word@.drop_first());
        p.behind = match parse_int(&digits) {
            Some(v) => v,
            None => 0,
        };
    }
}

/// Reads one line of the status output.
fn read_line(p: &mut Progress, line: &[char])
    ensures
        final(p)@ == apply_line(old(p)@, line@),
{
    let head: Vec<char> = vec!['#', ' ', 'b', 'r', 'a', 'n', 'c', 'h', '.', 'h', 'e', 'a', 'd', ' '];
    let oid: Vec<char> = vec!['#', ' ', 'b', 'r', 'a', 'n', 'c', 'h', '.', 'o', 'i', 'd', ' '];
    let ab: Vec<char> = vec!['#', ' ', 'b', 'r', 'a', 'n', 'c', 'h', '.', 'a', 'b', ' '];
    let hash: Vec<char> = vec!['#'];
    assert(hash@ == seq!['#']);
    assert(head@ == head_tag());
    assert(oid@ == oid_tag());
    assert(ab@ == ab_tag());
    if starts_with(line, &head) {
        let rest: Vec<char> = copy_range(line, head.len(), line.len());
        assert(rest@ =~= line@.skip(head@.len() as int));
        p.branch = trimmed(&rest);
    } else if starts_with(line, &oid) {
        let rest: Vec<char> = copy_range(line, oid.len(), line.len());
        assert(rest@ =~= line@.skip(oid@.len() as int));
        p.oid = trimmed(&rest);
    } else if starts_with(line, &ab) {
        let rest: Vec<char> = copy_range(line, ab.len(), line.len());
        assert(rest@ =~= line@.skip(ab@.len() as int));
        let words: Vec<Vec<char>> = split_fields(&rest, Separator::Whitespace);
        let ghost ws = views(words@);
        let ghost start = p@;
        let mut i: usize = 0;
        while i < words.len()
            invariant
                i <= words@.len(),
                ws == views(words@),
                p@ == apply_counts(start, ws.take(i as int)),
            decreases words@.len() - i,
        {
            read_count(p, &words[i]);
            assert(ws.take(i + 1).drop_last() =~= ws.take(i as int));
            i = i + 1;
        }
        assert(ws.take(i as int) =~= ws);
    } else if !starts_with(line, &hash) && line.len() > 0 {
        p.dirty = true;
    }
}

/// Reads the output of `git status --porcelain=v2 --branch`: the branch
/// (for a detached head, `@` and the first seven characters of the commit
/// id), whether any entry line is present, and the counts ahead of and
/// behind upstream. `None` where no header line names a branch.
pub fn parse(porcelain: &str) -> (r: Option<GitInfo>)
    ensures
        match r {
            Some(g) => summary(porcelain@) == Some(g@),
            None => summary(porcelain@) is None,
        },
{
    let text: Vec<char> = to_chars(porcelain);
    let ls: Vec<Vec<char>> = split_lines(&text);
    let ghost all = views(ls@);
    let mut p = Progress { branch: Vec::new(), oid: Vec::new(), dirty: false, ahead: 0, behind: 0 };
    let mut i: usize = 0;
    while i < ls.len()
        invariant
            i <= ls@.len(),
            all == views(ls@),
            all == lines(porcelain@),
            p@ == apply_lines(scan_start(), all.take(i as int)),
        decreases ls@.len() - i,
    {
        read_line(&mut p, &ls[i]);
        assert(all.take(i + 1).drop_last() =~= all.take(i as int));
        i = i + 1;
    }
    assert(all.take(i as int) =~= all);
    if p.branch.len() == 0 {
        return None;
    }
    let marker: Vec<char> = vec!['(', 'd', 'e', 't', 'a', 'c', 'h', 'e', 'd', ')'];
    assert(marker@ == detached());
    let branch: Vec<char> = if same_chars(&p.branch, &marker) {
        let mut b: Vec<char> = vec!['@'];
        let keep: usize = if p.oid.len() < SHORT_OID { p.oid.len() } else { SHORT_OID };
        let short: Vec<char> = copy_range(&p.oid, 0, keep);
        push_all(&mut b, &short);
        assert(b@ =~= shown_branch(p.branch@, p.oid@));
        b
    } else {
        assert(p.branch@ == shown_branch(p.branch@, p.oid@));
        p.branch
    };
    Some(
        GitInfo {
            branch: string_from_chars(&branch),
            dirty: p.dirty,
            ahead: p.ahead,
            behind: p.behind,
        },
    )
}

/// What `String::from_utf8_lossy` makes of `bytes`.
pub uninterp spec fn lossy_text(bytes: Seq<u8>) -> Seq<char>;

/// std's `String::from_utf8_lossy`: the text of `bytes`, each invalid
/// sequence replaced by U+FFFD; bytes that are valid UTF-8 decode as they
/// are. Which sequences count as one invalid sequence is left unstated.
#[verifier::external_body]
fn utf8_lossy(bytes: &[u8]) -> (s: String)
    ensures
        s@ == lossy_text(bytes@),
        valid_utf8(bytes@) ==> s@ == decode_utf8(bytes@),
{
    String::from_utf8_lossy(bytes).into_owned()
}

/// Reads what `git status --porcelain=v2 --branch` left: nothing where the
/// command failed, else its standard output, decoded leniently, as
/// [`parse`] reads it.
pub fn from_output(success: bool, stdout: &[u8]) -> (r: Option<GitInfo>)
    ensures
        !success ==> r is None,
        success ==> match r {
            Some(g) => summary(lossy_text(stdout@)) == Some(g@),
            None => summary(lossy_text(stdout@)) is None,
        },
        success && valid_utf8(stdout@) ==> match r {
            Some(g) => summary(decode_utf8(stdout@)) == Some(g@),
            None => summary(decode_utf8(stdout@)) is None,
        },
{
    if !success {
        return None;
    }
    let text: String = utf8_lossy(stdout);
    parse(text.as_str())
}

proof fn lemma_branch_stays_empty(st: StatusScan, ls: Seq<Seq<char>>)
    requires
        st.branch.len() == 0,
        forall|i: int| 0 <= i < ls.len() ==> !has_prefix(#[trigger] ls[i], head_tag()),
    ensures
        apply_lines(st, ls).branch.len() == 0,
    decreases ls.len(),
{
    if ls.len() > 0 {
        lemma_branch_stays_empty(st, ls.drop_last());
        assert(!has_prefix(ls[ls.len() - 1], head_tag()));
        let w = fields(ls.last().skip(ab_tag().len() as int), Separator::Whitespace);
        lemma_counts_keep_branch(apply_lines(st, ls.drop_last()), w);
    }
}

proof fn lemma_counts_keep_branch(st: StatusScan, words: Seq<Seq<char>>)
    ensures
        apply_counts(st, words).branch == st.branch,
    decreases words.len(),
{
    if words.len() > 0 {
        lemma_counts_keep_branch(st, words.drop_last());
    }
}

/// Without a `# branch.head` line there is no git segment.
pub proof fn lemma_no_head_line(s: Seq<char>)
    requires
        forall|i: int| 0 <= i < lines(s).len() ==> !has_prefix(#[trigger] lines(s)[i], head_tag()),
    ensures
        summary(s) is None,
{
    lemma_branch_stays_empty(scan_start(), lines(s));
}

/// A line that is not a header: not empty, and not starting with `#`.
pub open spec fn is_entry(line: Seq<char>) -> bool {
    line.len() > 0 && !has_prefix(line, seq!['#'])
}

proof fn lemma_counts_keep_dirty(st: StatusScan, words: Seq<Seq<char>>)
    ensures
        apply_counts(st, words).dirty == st.dirty,
    decreases words.len(),
{
    if words.len() > 0 {
        lemma_counts_keep_dirty(st, words.drop_last());
    }
}

proof fn lemma_dirty_scan(st: StatusScan, ls: Seq<Seq<char>>)
    ensures
        apply_lines(st, ls).dirty == (st.dirty || exists|i: int|
            0 <= i < ls.len() && is_entry(#[trigger] ls[i])),
    decreases ls.len(),
{
    if ls.len() > 0 {
        let pre = ls.drop_last();
        lemma_dirty_scan(st, pre);
        let l = ls.last();
        let mid = apply_lines(st, pre);
        let w = fields(l.skip(ab_tag().len() as int), Separator::Whitespace);
        lemma_counts_keep_dirty(mid, w);
        if has_prefix(l, head_tag()) || has_prefix(l, oid_tag()) || has_prefix(l, ab_tag()) {
            let t = if has_prefix(l, head_tag()) {
                head_tag()
            } else if has_prefix(l, oid_tag()) {
                oid_tag()
            } else {
                ab_tag()
            };
            assert(l.take(t.len() as int)[0] == l[0]);
            assert(l[0] == '#');
            assert(l.take(1) =~= seq!['#']);
        }
        if exists|i: int| 0 <= i < ls.len() && is_entry(#[trigger] ls[i]) {
            let i = choose|i: int| 0 <= i < ls.len() && is_entry(#[trigger] ls[i]);
            if i < ls.len() - 1 {
                assert(pre[i] == ls[i]);
            }
        }
        if exists|i: int| 0 <= i < pre.len() && is_entry(#[trigger] pre[i]) {
            let i = choose|i: int| 0 <= i < pre.len() && is_entry(#[trigger] pre[i]);
            assert(ls[i] == pre[i]);
        }
    }
}

/// The tree shows dirty exactly where the status text holds an entry line
/// (a line that is not empty and not a `#` header).
pub proof fn lemma_dirty_iff_entry(s: Seq<char>)
    requires
        summary(s) is Some,
    ensures
        summary(s)->0.dirty == exists|i: int|
            0 <= i < lines(s).len() && is_entry(#[trigger] lines(s)[i]),
{
    lemma_dirty_scan(scan_start(), lines(s));
}

proof fn lemma_open_line(s: Seq<char>)
    requires
        s.len() > 0,
        s.last() != '\n',
    ensures
        line_scan(s).1.len() > 0,
        line_scan(s).1.last() == s.last(),
{
}

/// A final line ending changes nothing: the status text read with a
/// newline added after its last line (one not ended by `\n` or `\r`)
/// gives what it gives without.
pub proof fn lemma_final_newline(s: Seq<char>)
    requires
        s.len() == 0 || (s.last() != '\n' && s.last() != '\r'),
    ensures
        summary(s.push('\n')) == summary(s),
{
    let t = s.push('\n');
    assert(t.drop_last() =~= s);
    if s.len() == 0 {
        assert(lines(t) =~= seq![seq![]]);
        assert(lines(s) =~= seq![]);
        assert(lines(t).drop_last() =~= lines(s));
        assert(!has_prefix(seq![], head_tag()));
        assert(!has_prefix(seq![], oid_tag()));
        assert(!has_prefix(seq![], ab_tag()));
        assert(apply_lines(scan_start(), lines(t)) == apply_lines(scan_start(), lines(s)));
    } else {
        lemma_open_line(s);
        assert(lines(t) =~= lines(s));
    }
}

proof fn lemma_counts_keep_oid(st: StatusScan, words: Seq<Seq<char>>)
    ensures
        apply_counts(st, words).oid == st.oid,
    decreases words.len(),
{
    if words.len() > 0 {
        lemma_counts_keep_oid(st, words.drop_last());
    }
}

proof fn lemma_oid_line_not_head(l: Seq<char>)
    requires
        has_prefix(l, oid_tag()),
    ensures
        !has_prefix(l, head_tag()),
{
    assert(l.take(oid_tag().len() as int)[9] == l[9]);
    if has_prefix(l, head_tag()) {
        assert(l.take(head_tag().len() as int)[9] == l[9]);
    }
}

proof fn lemma_branch_kept(st: StatusScan, ls: Seq<Seq<char>>)
    requires
        forall|j: int| 0 <= j < ls.len() ==> !has_prefix(#[trigger] ls[j], head_tag()),
    ensures
        apply_lines(st, ls).branch == st.branch,
    decreases ls.len(),
{
    if ls.len() > 0 {
        lemma_branch_kept(st, ls.drop_last());
        assert(!has_prefix(ls[ls.len() - 1], head_tag()));
        let w = fields(ls.last().skip(ab_tag().len() as int), Separator::Whitespace);
        lemma_counts_keep_branch(apply_lines(st, ls.drop_last()), w);
    }
}

proof fn lemma_last_head(st: StatusScan, ls: Seq<Seq<char>>, i: int)
    requires
        0 <= i < ls.len(),
        has_prefix(ls[i], head_tag()),
        forall|j: int| i < j < ls.len() ==> !has_prefix(#[trigger] ls[j], head_tag()),
    ensures
        apply_lines(st, ls).branch == trim(ls[i].skip(head_tag().len() as int)),
    decreases ls.len(),
{
    let pre = ls.drop_last();
    if i < ls.len() - 1 {
        assert forall|j: int| i < j < pre.len() implies !has_prefix(#[trigger] pre[j], head_tag()) by {
            assert(pre[j] == ls[j]);
        }
        assert(pre[i] == ls[i]);
        lemma_last_head(st, pre, i);
        assert(!has_prefix(ls[ls.len() - 1], head_tag()));
        let w = fields(ls.last().skip(ab_tag().len() as int), Separator::Whitespace);
        lemma_counts_keep_branch(apply_lines(st, pre), w);
    }
}

proof fn lemma_oid_kept(st: StatusScan, ls: Seq<Seq<char>>)
    requires
        forall|j: int| 0 <= j < ls.len() ==> !has_prefix(#[trigger] ls[j], oid_tag()),
    ensures
        apply_lines(st, ls).oid == st.oid,
    decreases ls.len(),
{
    if ls.len() > 0 {
        lemma_oid_kept(st, ls.drop_last());
        assert(!has_prefix(ls[ls.len() - 1], oid_tag()));
        let w = fields(ls.last().skip(ab_tag().len() as int), Separator::Whitespace);
        lemma_counts_keep_oid(apply_lines(st, ls.drop_last()), w);
    }
}

proof fn lemma_last_oid(st: StatusScan, ls: Seq<Seq<char>>, k: int)
    requires
        0 <= k < ls.len(),
        has_prefix(ls[k], oid_tag()),
        forall|j: int| k < j < ls.len() ==> !has_prefix(#[trigger] ls[j], oid_tag()),
    ensures
        apply_lines(st, ls).oid == trim(ls[k].skip(oid_tag().len() as int)),
    decreases ls.len(),
{
    let pre = ls.drop_last();
    if k < ls.len() - 1 {
        assert forall|j: int| k < j < pre.len() implies !has_prefix(#[trigger] pre[j], oid_tag()) by {
            assert(pre[j] == ls[j]);
        }
        assert(pre[k] == ls[k]);
        lemma_last_oid(st, pre, k);
        assert(!has_prefix(ls[ls.len() - 1], oid_tag()));
        let w = fields(ls.last().skip(ab_tag().len() as int), Separator::Whitespace);
        lemma_counts_keep_oid(apply_lines(st, pre), w);
    } else {
        lemma_oid_line_not_head(ls[k]);
    }
}

/// The name on the last `# branch.head ` line of `s`, trimmed.
pub open spec fn head_name(s: Seq<char>, i: int) -> Seq<char> {
    trim(lines(s)[i].skip(14))
}

/// Line `i` of `s` is its last `# branch.head ` line.
pub open spec fn last_head_line(s: Seq<char>, i: int) -> bool {
    &&& 0 <= i < lines(s).len()
    &&& has_prefix(lines(s)[i], head_tag())
    &&& forall|j: int| i < j < lines(s).len() ==> !has_prefix(#[trigger] lines(s)[j], head_tag())
}

/// The branch is kept whole: where the last `# branch.head ` line names a
/// branch H (trimmed, not empty, not `(detached)`), the git data is there
/// and its branch is exactly H, every character (slashes too) kept.
pub proof fn law_branch_is_head_name(s: Seq<char>, i: int)
    requires
        last_head_line(s, i),
        head_name(s, i).len() > 0,
        head_name(s, i) != seq!['(', 'd', 'e', 't', 'a', 'c', 'h', 'e', 'd', ')'],
    ensures
        summary(s) is Some,
        summary(s)->0.branch == head_name(s, i),
{
    lemma_last_head(scan_start(), lines(s), i);
}

/// An empty name on the last `# branch.head ` line gives no git data.
pub proof fn law_empty_head_name(s: Seq<char>, i: int)
    requires
        last_head_line(s, i),
        head_name(s, i).len() == 0,
    ensures
        summary(s) is None,
{
    lemma_last_head(scan_start(), lines(s), i);
}

/// A detached head shows `@` and the first seven characters (or all, if
/// fewer) of the commit id on the last `# branch.oid ` line, trimmed.
pub proof fn law_detached_shows_oid(s: Seq<char>, i: int, k: int)
    requires
        last_head_line(s, i),
        head_name(s, i) == seq!['(', 'd', 'e', 't', 'a', 'c', 'h', 'e', 'd', ')'],
        0 <= k < lines(s).len(),
        has_prefix(lines(s)[k], oid_tag()),
        forall|j: int| k < j < lines(s).len() ==> !has_prefix(#[trigger] lines(s)[j], oid_tag()),
    ensures
        summary(s) is Some,
        ({
            let o = trim(lines(s)[k].skip(13));
            summary(s)->0.branch == seq!['@'] + o.take(if o.len() < 7 { o.len() as int } else { 7 })
        }),
{
    lemma_last_head(scan_start(), lines(s), i);
    lemma_last_oid(scan_start(), lines(s), k);
    assert(head_name(s, i) == detached());
}

/// A detached head with no `# branch.oid ` line shows `@` alone.
pub proof fn law_detached_without_oid(s: Seq<char>, i: int)
    requires
        last_head_line(s, i),
        head_name(s, i) == seq!['(', 'd', 'e', 't', 'a', 'c', 'h', 'e', 'd', ')'],
        forall|j: int| 0 <= j < lines(s).len() ==> !has_prefix(#[trigger] lines(s)[j], oid_tag()),
    ensures
        summary(s) is Some,
        summary(s)->0.branch == seq!['@'],
{
    lemma_last_head(scan_start(), lines(s), i);
    lemma_oid_kept(scan_start(), lines(s));
    assert(head_name(s, i) == detached());
    assert(seq!['@'] + Seq::<char>::empty().take(0) =~= seq!['@']);
}

proof fn lemma_apply_lines_split(st: StatusScan, a: Seq<Seq<char>>, b: Seq<Seq<char>>)
    ensures
        apply_lines(st, a + b) == apply_lines(apply_lines(st, a), b),
    decreases b.len(),
{
    if b.len() == 0 {
        assert(a + b =~= a);
    } else {
        assert((a + b).drop_last() =~= a + b.drop_last());
        lemma_apply_lines_split(st, a, b.drop_last());
    }
}

proof fn lemma_counts_kept(st: StatusScan, ls: Seq<Seq<char>>)
    requires
        forall|j: int| 0 <= j < ls.len() ==> !has_prefix(#[trigger] ls[j], ab_tag()),
    ensures
        apply_lines(st, ls).ahead == st.ahead,
        apply_lines(st, ls).behind == st.behind,
    decreases ls.len(),
{
    if ls.len() > 0 {
        lemma_counts_kept(st, ls.drop_last());
        assert(!has_prefix(ls[ls.len() - 1], ab_tag()));
    }
}

/// A count word as the line holds it: `+a` sets the count ahead to what
/// `a` reads as (zero where it does not read as an `i64`), `-b` the count
/// behind: on the last `# branch.ab ` line, words `+a -b` give exactly
/// those counts, whatever the lines before or after say.
pub proof fn law_counts_from_last_ab_line(s: Seq<char>, k: int, a: Seq<char>, b: Seq<char>)
    requires
        0 <= k < lines(s).len(),
        has_prefix(lines(s)[k], ab_tag()),
        forall|j: int| k < j < lines(s).len() ==> !has_prefix(#[trigger] lines(s)[j], ab_tag()),
        fields(lines(s)[k].skip(12), Separator::Whitespace) == seq![seq!['+'] + a, seq!['-'] + b],
        summary(s) is Some,
    ensures
        summary(s)->0.ahead == (match parse_i64(a) {
            Some(v) => v,
            None => 0,
        }),
        summary(s)->0.behind == (match parse_i64(b) {
            Some(v) => v,
            None => 0,
        }),
{
    let ls = lines(s);
    let front = ls.take(k + 1);
    let back = ls.skip(k + 1);
    assert(front + back =~= ls);
    lemma_apply_lines_split(scan_start(), front, back);
    assert forall|j: int| 0 <= j < back.len() implies !has_prefix(#[trigger] back[j], ab_tag()) by {
        assert(back[j] == ls[k + 1 + j]);
    }
    let mid = apply_lines(scan_start(), front);
    lemma_counts_kept(mid, back);
    assert(front.drop_last() =~= ls.take(k));
    assert(front.last() == ls[k]);
    let l = ls[k];
    assert(l.take(12)[9] == l[9]);
    assert(!has_prefix(l, head_tag())) by {
        if has_prefix(l, head_tag()) {
            assert(l.take(14)[9] == l[9]);
        }
    }
    assert(!has_prefix(l, oid_tag())) by {
        if has_prefix(l, oid_tag()) {
            assert(l.take(13)[9] == l[9]);
        }
    }
    let w = seq![seq!['+'] + a, seq!['-'] + b];
    let p0 = apply_lines(scan_start(), ls.take(k));
    assert(w.drop_last() =~= seq![seq!['+'] + a]);
    assert(seq![seq!['+'] + a].drop_last() =~= Seq::<Seq<char>>::empty());
    assert((seq!['+'] + a).take(1) =~= seq!['+']);
    assert((seq!['+'] + a).drop_first() =~= a);
    assert((seq!['-'] + b).take(1) =~= seq!['-']);
    assert((seq!['-'] + b).drop_first() =~= b);
    assert(!has_prefix(seq!['-'] + b, seq!['+']));
    assert(has_prefix(seq!['+'] + a, seq!['+']));
    assert(has_prefix(seq!['-'] + b, seq!['-']));
    let one = apply_counts(p0, w.drop_last());
    assert(apply_counts(p0, seq![seq!['+'] + a].drop_last()) == p0);
    assert(one == apply_count(p0, seq!['+'] + a));
    assert(one.ahead == count_or_zero(a));
    assert(w.last() == seq!['-'] + b);
    assert(apply_counts(p0, w) == apply_count(one, seq!['-'] + b));
    assert(mid == apply_counts(p0, w));
}

} // verus!
