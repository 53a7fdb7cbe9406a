//! The tree walker's core: folding the files found under one drive root
//! into a scan result, and the mount-table parsing behind drive enumeration.
use crate::analyzer::{analyze_file, base_name, lower_ext, spec_analyze};
use crate::catalog::{Catalog, FileMetadata, MetaView};
use crate::config::{Config, ConfigView};
use crate::text::{chars_start_with, chars_to_string, is_prefix_of, str_eq, string_to_chars};
use vstd::prelude::*;

verus! {

// ------------------------------------------------------------- scan entries
/// One regular file met during a walk, with its OS-reported attributes.
pub struct FileEntry {
    pub path: String,
    pub size: u64,
    pub created: i64,
    pub modified: i64,
    pub executable: bool,
}

/// Mathematical model of a [`FileEntry`].
pub ghost struct EntryView {
    pub path: Seq<char>,
    pub size: u64,
    pub created: i64,
    pub modified: i64,
    pub executable: bool,
}

impl View for FileEntry {
    type V = EntryView;

    open spec fn view(&self) -> EntryView {
        EntryView {
            path: self.path@,
            size: self.size,
            created: self.created,
            modified: self.modified,
            executable: self.executable,
        }
    }
}

/// The models of a sequence of entries.
pub open spec fn entry_views(entries: Seq<FileEntry>) -> Seq<EntryView> {
    entries.map_values(|e: FileEntry| e@)
}

// -------------------------------------------------------- extension counts
/// One extension with the number of files carrying it.
pub struct ExtCount {
    pub extension: String,
    pub count: usize,
}

impl View for ExtCount {
    type V = (Seq<char>, usize);

    open spec fn view(&self) -> (Seq<char>, usize) {
        (self.extension@, self.count)
    }
}

/// The mapping a sequence of extension counts denotes.
pub open spec fn counts_map(pairs: Seq<(Seq<char>, usize)>) -> Map<Seq<char>, usize>
    decreases pairs.len(),
{
    if pairs.len() == 0 {
        Map::empty()
    } else {
        counts_map(pairs.drop_last()).insert(pairs.last().0, pairs.last().1)
    }
}

pub open spec fn distinct_ext_keys(pairs: Seq<(Seq<char>, usize)>) -> bool {
    forall|i: int, j: int| 0 <= i < j < pairs.len() ==> pairs[i].0 != pairs[j].0
}

pub open spec fn has_ext_key(pairs: Seq<(Seq<char>, usize)>, x: Seq<char>) -> bool {
    exists|i: int| 0 <= i < pairs.len() && pairs[i].0 == x
}

proof fn lemma_counts_map_domain(pairs: Seq<(Seq<char>, usize)>)
    ensures
        forall|x: Seq<char>| #[trigger] counts_map(pairs).contains_key(x) <==> has_ext_key(
            pairs,
            x,
        ),
    decreases pairs.len(),
{
    if pairs.len() > 0 {
        lemma_counts_map_domain(pairs.drop_last());
        assert forall|x: Seq<char>| #[trigger] counts_map(pairs).contains_key(x) implies
            has_ext_key(pairs, x) by {
            assert(counts_map(pairs) == counts_map(pairs.drop_last()).insert(
                pairs.last().0,
                pairs.last().1,
            ));
            if x == pairs.last().0 {
                assert(pairs[pairs.len() - 1].0 == x);
            } else {
                assert(counts_map(pairs.drop_last()).contains_key(x));
                let i = choose|i: int|
                    0 <= i < pairs.drop_last().len() && pairs.drop_last()[i].0 == x;
                assert(pairs[i].0 == x);
            }
        }
        assert forall|x: Seq<char>| has_ext_key(pairs, x) implies #[trigger] counts_map(
            pairs,
        ).contains_key(x) by {
            assert(counts_map(pairs) == counts_map(pairs.drop_last()).insert(
                pairs.last().0,
                pairs.last().1,
            ));
            let i = choose|i: int| 0 <= i < pairs.len() && pairs[i].0 == x;
            if i < pairs.len() - 1 {
                assert(pairs.drop_last()[i].0 == x);
                assert(has_ext_key(pairs.drop_last(), x));
            } else {
                assert(pairs.last().0 == x);
            }
        }
    }
}

proof fn lemma_counts_map_distinct(pairs: Seq<(Seq<char>, usize)>)
    requires
        distinct_ext_keys(pairs),
    ensures
        forall|i: int|
            0 <= i < pairs.len() ==> counts_map(pairs).contains_key(#[trigger] pairs[i].0)
                && counts_map(pairs)[pairs[i].0] == pairs[i].1,
    decreases pairs.len(),
{
    if pairs.len() > 0 {
        assert(distinct_ext_keys(pairs.drop_last()));
        lemma_counts_map_distinct(pairs.drop_last());
        assert forall|i: int| 0 <= i < pairs.len() implies counts_map(pairs).contains_key(
            #[trigger] pairs[i].0,
        ) && counts_map(pairs)[pairs[i].0] == pairs[i].1 by {
            if i < pairs.len() - 1 {
                assert(pairs.drop_last()[i] == pairs[i]);
                assert(pairs[i].0 != pairs.last().0);
            }
        }
    }
}

proof fn lemma_counts_map_update(pairs: Seq<(Seq<char>, usize)>, i: int, x: Seq<char>, c: usize)
    requires
        distinct_ext_keys(pairs),
        0 <= i < pairs.len(),
        pairs[i].0 == x,
    ensures
        counts_map(pairs.update(i, (x, c))) == counts_map(pairs).insert(x, c),
        distinct_ext_keys(pairs.update(i, (x, c))),
    decreases pairs.len(),
{
    let updated = pairs.update(i, (x, c));
    assert forall|a: int, b: int| 0 <= a < b < updated.len() implies updated[a].0
        != updated[b].0 by {
        assert(pairs[a].0 != pairs[b].0);
    }
    if i == pairs.len() - 1 {
        assert(updated.drop_last() =~= pairs.drop_last());
        assert(counts_map(pairs).insert(x, c) == counts_map(pairs.drop_last()).insert(
            pairs.last().0,
            pairs.last().1,
        ).insert(x, c));
        assert(counts_map(pairs.drop_last()).insert(pairs.last().0, pairs.last().1).insert(x, c)
            =~= counts_map(pairs.drop_last()).insert(x, c));
    } else {
        assert(updated.drop_last() =~= pairs.drop_last().update(i, (x, c)));
        assert(distinct_ext_keys(pairs.drop_last()));
        lemma_counts_map_update(pairs.drop_last(), i, x, c);
        assert(updated.last() == pairs.last());
        assert(pairs.last().0 != x);
        assert(counts_map(pairs.drop_last()).insert(x, c).insert(pairs.last().0, pairs.last().1)
            =~= counts_map(pairs.drop_last()).insert(pairs.last().0, pairs.last().1).insert(x, c));
    }
}

/// The per-extension file counts of one walk.
pub struct ExtCounts {
    pub pairs: Vec<ExtCount>,
}

impl View for ExtCounts {
    type V = Seq<(Seq<char>, usize)>;

    open spec fn view(&self) -> Seq<(Seq<char>, usize)> {
        self.pairs@.map_values(|e: ExtCount| e@)
    }
}

impl ExtCounts {
    pub open spec fn wf(self) -> bool {
        distinct_ext_keys(self@)
    }

    pub open spec fn as_map(self) -> Map<Seq<char>, usize> {
        counts_map(self@)
    }

    pub fn new() -> (r: ExtCounts)
        ensures
            r@ == Seq::<(Seq<char>, usize)>::empty(),
            r.wf(),
    {
        ExtCounts { pairs: Vec::new() }
    }

    pub fn len(&self) -> (r: usize)
        ensures
            r == self@.len(),
    {
        self.pairs.len()
    }

    /// The count recorded for one extension, zero when absent.
    pub fn get(&self, ext: &str) -> (r: usize)
        requires
            self.wf(),
        ensures
            r == if self.as_map().contains_key(ext@) {
                self.as_map()[ext@]
            } else {
                0
            },
    {
        proof {
            lemma_counts_map_domain(self@);
            lemma_counts_map_distinct(self@);
        }
        let n: usize = self.pairs.len();
        let mut i: usize = 0;
        while i < n
            invariant
                self.wf(),
                n == self.pairs@.len(),
                i <= n,
                forall|k: int| 0 <= k < i ==> self@[k].0 != ext@,
            decreases n - i,
        {
            if str_eq(self.pairs[i].extension.as_str(), ext) {
                proof {
                    lemma_counts_map_distinct(self@);
                    assert(self@[i as int].0 == ext@);
                }
                return self.pairs[i].count;
            }
            i = i + 1;
        }
        proof {
            assert(!has_ext_key(self@, ext@));
        }
        0
    }

    /// Raises the count of one extension by one, starting it at one when
    /// absent.
    pub fn increment(&mut self, ext: &str)
        requires
            old(self).wf(),
            old(self).as_map().contains_key(ext@) ==> old(self).as_map()[ext@] < usize::MAX,
        ensures
            final(self).wf(),
            final(self).as_map() == old(self).as_map().insert(
                ext@,
                if old(self).as_map().contains_key(ext@) {
                    (old(self).as_map()[ext@] + 1) as usize
                } else {
                    1usize
                },
            ),
    {
        proof {
            lemma_counts_map_domain(self@);
            lemma_counts_map_distinct(self@);
        }
        let n: usize = self.pairs.len();
        let mut i: usize = 0;
        while i < n
            invariant
                self@ == old(self)@,
                self.wf(),
                n == self.pairs@.len(),
                i <= n,
                old(self).as_map().contains_key(ext@) ==> old(self).as_map()[ext@] < usize::MAX,
                forall|k: int| 0 <= k < i ==> old(self)@[k].0 != ext@,
            decreases n - i,
        {
            if str_eq(self.pairs[i].extension.as_str(), ext) {
                proof {
                    lemma_counts_map_domain(self@);
                    lemma_counts_map_distinct(self@);
                    assert(self@[i as int].0 == ext@);
                    assert(has_ext_key(self@, ext@));
                    assert(self.as_map()[ext@] == self@[i as int].1);
                }
                let c = self.pairs[i].count;
                let e = self.pairs[i].extension.clone();
                proof {
                    lemma_counts_map_update(self@, i as int, ext@, (c + 1) as usize);
                }
                self.pairs.set(i, ExtCount { extension: e, count: c + 1 });
                proof {
                    assert(self@ =~= old(self)@.update(i as int, (ext@, (c + 1) as usize)));
                }
                return ;
            }
            i = i + 1;
        }
        proof {
            assert(!has_ext_key(self@, ext@));
            lemma_counts_map_domain(self@);
        }
        let ghost pairs0 = self@;
        self.pairs.push(ExtCount { extension: ext.to_owned(), count: 1 });
        proof {
            assert(self@ =~= pairs0.push((ext@, 1usize)));
            assert(self@.drop_last() =~= pairs0);
            assert forall|a: int, b: int| 0 <= a < b < self@.len() implies self@[a].0
                != self@[b].0 by {
                if b == self@.len() - 1 {
                    assert(pairs0[a].0 != ext@);
                }
            }
        }
    }
}

// ------------------------------------------------------------ the scan fold
/// The aggregates of a walk, as mathematical values.
pub ghost struct ScanView {
    pub total_files: int,
    pub total_size: int,
    pub file_types: Map<Seq<char>, int>,
    pub records: Map<Seq<char>, MetaView>,
}

/// How one file entry changes the aggregates: an excluded path changes
/// nothing; any other file is counted, sized, tallied under its lowercase
/// extension, and analyzed into a record keyed by its path.
pub open spec fn scan_step(st: ScanView, e: EntryView, cfg: ConfigView, now: i64) -> ScanView {
    if cfg.is_excluded(e.path) {
        st
    } else {
        ScanView {
            total_files: st.total_files + 1,
            total_size: st.total_size + e.size,
            file_types: match lower_ext(base_name(e.path)) {
                Some(x) => st.file_types.insert(
                    x,
                    (if st.file_types.contains_key(x) {
                        st.file_types[x]
                    } else {
                        0
                    }) + 1,
                ),
                None => st.file_types,
            },
            records: st.records.insert(
                e.path,
                spec_analyze(e.path, e.size, e.created, e.modified, e.executable, now),
            ),
        }
    }
}

pub open spec fn scan_init() -> ScanView {
    ScanView {
        total_files: 0,
        total_size: 0,
        file_types: Map::empty(),
        records: Map::empty(),
    }
}

/// The whole walk: the entries folded in order.
pub open spec fn scan_fold(entries: Seq<EntryView>, cfg: ConfigView, now: i64) -> ScanView
    decreases entries.len(),
{
    if entries.len() == 0 {
        scan_init()
    } else {
        scan_step(scan_fold(entries.drop_last(), cfg, now), entries.last(), cfg, now)
    }
}

/// No excluded path is ever keyed in the fold's records, and the aggregates
/// stay within the entry count.
pub proof fn lemma_scan_fold_facts(entries: Seq<EntryView>, cfg: ConfigView, now: i64)
    ensures
        forall|p: Seq<char>|
            cfg.is_excluded(p) ==> !scan_fold(entries, cfg, now).records.contains_key(p),
        0 <= scan_fold(entries, cfg, now).total_files <= entries.len(),
        0 <= scan_fold(entries, cfg, now).total_size,
        forall|x: Seq<char>|
            #[trigger] scan_fold(entries, cfg, now).file_types.contains_key(x) ==> 0 < scan_fold(
                entries,
                cfg,
                now,
            ).file_types[x] <= scan_fold(entries, cfg, now).total_files,
    decreases entries.len(),
{
    if entries.len() > 0 {
        lemma_scan_fold_facts(entries.drop_last(), cfg, now);
    }
}

/// A prefix of the walk never exceeds the whole walk's aggregates.
pub proof fn lemma_scan_fold_prefix(entries: Seq<EntryView>, cfg: ConfigView, now: i64, i: int)
    requires
        0 <= i <= entries.len(),
    ensures
        scan_fold(entries.subrange(0, i), cfg, now).total_size <= scan_fold(
            entries,
            cfg,
            now,
        ).total_size,
        scan_fold(entries.subrange(0, i), cfg, now).total_files <= scan_fold(
            entries,
            cfg,
            now,
        ).total_files,
    decreases entries.len() - i,
{
    if i == entries.len() {
        assert(entries.subrange(0, i) =~= entries);
    } else {
        let cur = entries.subrange(0, i);
        let nxt = entries.subrange(0, i + 1);
        assert(nxt.drop_last() =~= cur);
        assert(nxt.last() == entries[i]);
        lemma_scan_fold_facts(cur, cfg, now);
        lemma_scan_fold_prefix(entries, cfg, now, i + 1);
    }
}

// --------------------------------------------------------------- the result
/// What one walk of one drive produced.
pub struct ScanResult {
    pub total_files: usize,
    pub total_size: u64,
    pub file_types: ExtCounts,
    pub metadata: Catalog,
}

impl ScanResult {
    /// The result faithfully carries the fold of the walked entries.
    pub open spec fn matches(self, fold: ScanView) -> bool {
        &&& self.total_files as int == fold.total_files
        &&& self.total_size as int == fold.total_size
        &&& self.file_types.wf()
        &&& self.file_types.as_map().dom() == fold.file_types.dom()
        &&& forall|x: Seq<char>|
            #[trigger] fold.file_types.contains_key(x) ==> self.file_types.as_map()[x] as int
                == fold.file_types[x]
        &&& self.metadata.wf()
        &&& self.metadata.as_map() == fold.records
    }
}

/// Folds the readable regular files found under one drive root into a scan
/// result: excluded paths are skipped entirely; every other file is counted,
/// its size added, its lowercase extension tallied, and its analyzed record
/// keyed by its path.  `now` is the instant the walk is judged at.
pub fn scan_drive(entries: &Vec<FileEntry>, config: &Config, now: i64) -> (r: ScanResult)
    requires
        scan_fold(entry_views(entries@), config@, now).total_size <= u64::MAX,
    ensures
        r.matches(scan_fold(entry_views(entries@), config@, now)),
        forall|p: Seq<char>| config@.is_excluded(p) ==> !r.metadata.as_map().contains_key(p),
{
    let ghost vs = entry_views(entries@);
    let n: usize = entries.len();
    let mut total_files: usize = 0;
    let mut total_size: u64 = 0;
    let mut file_types = ExtCounts::new();
    let mut metadata = Catalog::new();
    let mut i: usize = 0;
    while i < n
        invariant
            n == entries@.len(),
            vs == entry_views(entries@),
            scan_fold(vs, config@, now).total_size <= u64::MAX,
            i <= n,
            total_files as int == scan_fold(vs.subrange(0, i as int), config@, now).total_files,
            total_size as int == scan_fold(vs.subrange(0, i as int), config@, now).total_size,
            file_types.wf(),
            file_types.as_map().dom() == scan_fold(
                vs.subrange(0, i as int),
                config@,
                now,
            ).file_types.dom(),
            forall|x: Seq<char>|
                #[trigger] scan_fold(vs.subrange(0, i as int), config@, now).file_types.contains_key(
                    x,
                ) ==> file_types.as_map()[x] as int == scan_fold(
                    vs.subrange(0, i as int),
                    config@,
                    now,
                ).file_types[x],
            metadata.wf(),
            metadata.as_map() == scan_fold(vs.subrange(0, i as int), config@, now).records,
        decreases n - i,
    {
        let ghost pre = scan_fold(vs.subrange(0, i as int), config@, now);
        let ghost post = scan_fold(vs.subrange(0, (i + 1) as int), config@, now);
        proof {
            assert(vs.subrange(0, (i + 1) as int).drop_last() =~= vs.subrange(0, i as int));
            assert(vs.subrange(0, (i + 1) as int).last() == vs[i as int]);
            assert(vs[i as int] == entries@[i as int]@);
            assert(post == scan_step(pre, vs[i as int], config@, now));
        }
        let e = &entries[i];
        if !config.is_path_excluded(e.path.as_str()) {
            proof {
                lemma_scan_fold_facts(vs.subrange(0, i as int), config@, now);
                lemma_scan_fold_prefix(vs, config@, now, (i + 1) as int);
                assert(post.total_size <= u64::MAX);
                assert(pre.total_files <= i as int);
            }
            total_files = total_files + 1;
            total_size = total_size + e.size;
            let cs = string_to_chars(e.path.as_str());
            let name = crate::analyzer::split_base_name(&cs);
            match crate::analyzer::split_extension(&name) {
                Some(ec) => {
                    let low = crate::text::to_ascii_lowercase(chars_to_string(&ec).as_str());
                    proof {
                        assert(lower_ext(base_name(vs[i as int].path)) == Some(low@));
                        lemma_scan_fold_facts(vs.subrange(0, i as int), config@, now);
                        if file_types.as_map().contains_key(low@) {
                            assert(pre.file_types.contains_key(low@));
                            assert(file_types.as_map()[low@] as int == pre.file_types[low@]);
                            assert(pre.file_types[low@] <= pre.total_files);
                        }
                    }
                    file_types.increment(low.as_str());
                    proof {
                        assert(file_types.as_map().dom() =~= post.file_types.dom());
                    }
                },
                None => {
                    proof {
                        assert(lower_ext(base_name(vs[i as int].path)) is None);
                    }
                },
            }
            let m = analyze_file(e.path.as_str(), e.size, e.created, e.modified, e.executable, now);
            metadata.insert(m);
        }
        i = i + 1;
    }
    proof {
        assert(vs.subrange(0, n as int) =~= vs);
        lemma_scan_fold_facts(vs, config@, now);
    }
    ScanResult { total_files, total_size, file_types, metadata }
}

// ------------------------------------------------------- drive enumeration
/// Space or tab: what separates the fields of a mount-table line.
pub open spec fn is_space(c: char) -> bool {
    c == ' ' || c == '\t'
}

/// The first position at or after `i` holding '\n', or the end.
pub open spec fn nl_pos(s: Seq<char>, i: int) -> int
    decreases s.len() - i,
{
    if 0 <= i < s.len() && s[i] != '\n' {
        nl_pos(s, i + 1)
    } else {
        i
    }
}

/// The first position at or after `i` holding no space, or the end.
pub open spec fn sp_pos(line: Seq<char>, i: int) -> int
    decreases line.len() - i,
{
    if 0 <= i < line.len() && is_space(line[i]) {
        sp_pos(line, i + 1)
    } else {
        i
    }
}

/// The first position at or after `i` holding a space, or the end.
pub open spec fn tok_end(line: Seq<char>, i: int) -> int
    decreases line.len() - i,
{
    if 0 <= i < line.len() && !is_space(line[i]) {
        tok_end(line, i + 1)
    } else {
        i
    }
}

/// A line without any carriage return left at its end.
pub open spec fn strip_cr(line: Seq<char>) -> Seq<char> {
    if line.len() > 0 && line.last() == '\r' {
        line.drop_last()
    } else {
        line
    }
}

/// The second whitespace-separated field of a line, if the line has two.
pub open spec fn second_field(line: Seq<char>) -> Option<Seq<char>> {
    let a = sp_pos(line, 0);
    if a >= line.len() {
        None
    } else {
        let b = tok_end(line, a);
        let c = sp_pos(line, b);
        if c >= line.len() {
            None
        } else {
            Some(line.subrange(c, tok_end(line, c)))
        }
    }
}

/// A mount point under one of the pseudo-filesystem trees.
pub open spec fn is_pseudo_mount(mp: Seq<char>) -> bool {
    ||| is_prefix_of("/proc"@, mp)
    ||| is_prefix_of("/sys"@, mp)
    ||| is_prefix_of("/dev"@, mp)
    ||| is_prefix_of("/run"@, mp)
}

/// The mount points taken from the table text starting at `i`: per line, the
/// second field, unless it lies under a pseudo-filesystem tree.
pub open spec fn drives_from(s: Seq<char>, i: int) -> Seq<Seq<char>>
    decreases s.len() - i,
{
    if !(0 <= i < s.len()) {
        Seq::empty()
    } else {
        let k = nl_pos(s, i);
        if !(i <= k <= s.len()) {
            Seq::empty()
        } else {
            let line = strip_cr(s.subrange(i, k));
            let head = match second_field(line) {
                Some(mp) => if is_pseudo_mount(mp) {
                    Seq::<Seq<char>>::empty()
                } else {
                    seq![mp]
                },
                None => Seq::<Seq<char>>::empty(),
            };
            if k == s.len() {
                head
            } else {
                head + drives_from(s, k + 1)
            }
        }
    }
}

/// The drive list a mount table denotes: its real mount points, and the root
/// filesystem appended when the table does not already name it.
pub open spec fn mounts_drives(s: Seq<char>) -> Seq<Seq<char>> {
    let d = drives_from(s, 0);
    if exists|i: int| 0 <= i < d.len() && d[i] == "/"@ {
        d
    } else {
        d.push("/"@)
    }
}

proof fn lemma_nl_pos_bounds(s: Seq<char>, i: int)
    requires
        0 <= i <= s.len(),
    ensures
        i <= nl_pos(s, i) <= s.len(),
        nl_pos(s, i) == s.len() || s[nl_pos(s, i)] == '\n',
        forall|k: int| i <= k < nl_pos(s, i) ==> s[k] != '\n',
    decreases s.len() - i,
{
    if 0 <= i < s.len() && s[i] != '\n' {
        lemma_nl_pos_bounds(s, i + 1);
    }
}

/// No drive taken from a mount table lies under a pseudo-filesystem tree,
/// and the root filesystem is always in the list.
pub proof fn lemma_mounts_drives_law(s: Seq<char>)
    ensures
        forall|i: int|
            0 <= i < mounts_drives(s).len() ==> !is_pseudo_mount(#[trigger] mounts_drives(s)[i]),
        exists|i: int| 0 <= i < mounts_drives(s).len() && mounts_drives(s)[i] == "/"@,
{
    lemma_drives_from_no_pseudo(s, 0);
    let d = drives_from(s, 0);
    assert(!is_pseudo_mount("/"@)) by {
        reveal_strlit("/");
        reveal_strlit("/proc");
        reveal_strlit("/sys");
        reveal_strlit("/dev");
        reveal_strlit("/run");
    }
    if exists|i: int| 0 <= i < d.len() && d[i] == "/"@ {
    } else {
        assert(mounts_drives(s)[d.len() as int] == "/"@);
    }
}

proof fn lemma_drives_from_no_pseudo(s: Seq<char>, i: int)
    ensures
        forall|k: int|
            0 <= k < drives_from(s, i).len() ==> !is_pseudo_mount(#[trigger] drives_from(s, i)[k]),
    decreases s.len() - i,
{
    if 0 <= i < s.len() {
        let k = nl_pos(s, i);
        if i <= k <= s.len() {
            let line = strip_cr(s.subrange(i, k));
            let head = match second_field(line) {
                Some(mp) => if is_pseudo_mount(mp) {
                    Seq::<Seq<char>>::empty()
                } else {
                    seq![mp]
                },
                None => Seq::<Seq<char>>::empty(),
            };
            assert(forall|t: int| 0 <= t < head.len() ==> !is_pseudo_mount(#[trigger] head[t]));
            if k < s.len() {
                lemma_drives_from_no_pseudo(s, k + 1);
                let d = drives_from(s, i);
                assert(d == head + drives_from(s, k + 1));
                assert forall|t: int| 0 <= t < d.len() implies !is_pseudo_mount(
                    #[trigger] d[t],
                ) by {
                    if t < head.len() {
                        assert(d[t] == head[t]);
                    } else {
                        assert(d[t] == drives_from(s, k + 1)[t - head.len()]);
                    }
                }
            } else {
                assert(drives_from(s, i) == head);
            }
        }
    }
}

/// Takes a token of non-space characters out of a line.
fn take_token(line: &Vec<char>, from: usize) -> (r: (Vec<char>, usize))
    requires
        from <= line@.len(),
    ensures
        r.1 as int == tok_end(line@, from as int),
        from <= r.1 <= line@.len(),
        r.0@ == line@.subrange(from as int, r.1 as int),
{
    let n: usize = line.len();
    let mut j: usize = from;
    while j < n && !(line[j] == ' ' || line[j] == '\t')
        invariant
            n == line@.len(),
            from <= j <= n,
            tok_end(line@, from as int) == tok_end(line@, j as int),
            forall|k: int| from <= k < j ==> !is_space(line@[k]),
        decreases n - j,
    {
        j = j + 1;
    }
    let mut out: Vec<char> = Vec::new();
    let mut t: usize = from;
    while t < j
        invariant
            from <= t <= j <= n,
            n == line@.len(),
            out@ == line@.subrange(from as int, t as int),
        decreases j - t,
    {
        out.push(line[t]);
        proof {
            assert(line@.subrange(from as int, (t + 1) as int) =~= line@.subrange(
                from as int,
                t as int,
            ).push(line@[t as int]));
        }
        t = t + 1;
    }
    (out, j)
}

/// Skips the spaces of a line.
fn skip_spaces(line: &Vec<char>, from: usize) -> (r: usize)
    requires
        from <= line@.len(),
    ensures
        r as int == sp_pos(line@, from as int),
        from <= r <= line@.len(),
{
    let n: usize = line.len();
    let mut j: usize = from;
    while j < n && (line[j] == ' ' || line[j] == '\t')
        invariant
            n == line@.len(),
            from <= j <= n,
            sp_pos(line@, from as int) == sp_pos(line@, j as int),
        decreases n - j,
    {
        j = j + 1;
    }
    j
}

/// The second field of a mount-table line.
fn second_field_exec(line: &Vec<char>) -> (r: Option<Vec<char>>)
    ensures
        match r {
            Some(ref mp) => second_field(line@) == Some(mp@),
            None => second_field(line@) is None,
        },
{
    let n: usize = line.len();
    let a = skip_spaces(line, 0);
    if a >= n {
        return None;
    }
    let (_tok, b) = take_token(line, a);
    let c = skip_spaces(line, b);
    if c >= n {
        return None;
    }
    let (mp, _d) = take_token(line, c);
    Some(mp)
}

/// Is a mount point under one of the pseudo-filesystem trees?
fn is_pseudo_mount_exec(mp: &Vec<char>) -> (r: bool)
    ensures
        r == is_pseudo_mount(mp@),
{
    let p1 = string_to_chars("/proc");
    let p2 = string_to_chars("/sys");
    let p3 = string_to_chars("/dev");
    let p4 = string_to_chars("/run");
    chars_start_with(mp, &p1) || chars_start_with(mp, &p2) || chars_start_with(mp, &p3)
        || chars_start_with(mp, &p4)
}

/// Parses a mount table into the list of drive roots to walk: one entry per
/// real mount point, pseudo filesystems skipped, and the root filesystem
/// appended when the table does not already name it.
pub fn get_all_drives(mounts: &str) -> (r: Vec<String>)
    ensures
        r.deep_view() == mounts_drives(mounts@),
{
    let cs = string_to_chars(mounts);
    let n: usize = cs.len();
    let mut out: Vec<String> = Vec::new();
    let mut pos: usize = 0;
    while pos < n
        invariant
            n == cs@.len(),
            cs@ == mounts@,
            pos <= n,
            drives_from(mounts@, 0) == out.deep_view() + drives_from(mounts@, pos as int),
        decreases n - pos,
    {
        proof {
            lemma_nl_pos_bounds(cs@, pos as int);
        }
        let mut k: usize = pos;
        while k < n && cs[k] != '\n'
            invariant
                n == cs@.len(),
                pos <= k <= n,
                nl_pos(cs@, pos as int) == nl_pos(cs@, k as int),
            decreases n - k,
        {
            k = k + 1;
        }
        let mut line: Vec<char> = Vec::new();
        let mut t: usize = pos;
        while t < k
            invariant
                pos <= t <= k <= n,
                n == cs@.len(),
                line@ == cs@.subrange(pos as int, t as int),
            decreases k - t,
        {
            line.push(cs[t]);
            proof {
                assert(cs@.subrange(pos as int, (t + 1) as int) =~= cs@.subrange(
                    pos as int,
                    t as int,
                ).push(cs@[t as int]));
            }
            t = t + 1;
        }
        if line.len() > 0 && line[line.len() - 1] == '\r' {
            line.pop();
            proof {
                assert(line@ =~= strip_cr(cs@.subrange(pos as int, k as int)));
            }
        }
        proof {
            assert(line@ == strip_cr(cs@.subrange(pos as int, k as int)));
        }
        let ghost out0 = out.deep_view();
        match second_field_exec(&line) {
            Some(mp) => {
                if !is_pseudo_mount_exec(&mp) {
                    out.push(chars_to_string(&mp));
                    proof {
                        assert(out.deep_view() =~= out0.push(mp@));
                    }
                }
            },
            None => {
            },
        }
        proof {
            let head = match second_field(line@) {
                Some(mp) => if is_pseudo_mount(mp) {
                    Seq::<Seq<char>>::empty()
                } else {
                    seq![mp]
                },
                None => Seq::<Seq<char>>::empty(),
            };
            if k == n {
                assert(drives_from(mounts@, pos as int) == head);
                assert(out.deep_view() =~= out0 + head);
                assert(drives_from(mounts@, n as int) =~= Seq::<Seq<char>>::empty());
                assert(out.deep_view() + drives_from(mounts@, n as int) =~= out0 + head);
            } else {
                assert(drives_from(mounts@, pos as int) == head + drives_from(mounts@, k + 1));
                assert(out.deep_view() =~= out0 + head);
                assert(out0 + (head + drives_from(mounts@, k + 1)) =~= (out0 + head)
                    + drives_from(mounts@, k + 1));
            }
        }
        if k == n {
            pos = n;
        } else {
            pos = k + 1;
        }
    }
    proof {
        assert(drives_from(mounts@, pos as int) =~= Seq::<Seq<char>>::empty());
        assert(out.deep_view() =~= drives_from(mounts@, 0));
    }
    let m: usize = out.len();
    let mut i: usize = 0;
    while i < m
        invariant
            m == out@.len(),
            out.deep_view() == drives_from(mounts@, 0),
            i <= m,
            forall|k: int| 0 <= k < i ==> out@[k]@ != "/"@,
        decreases m - i,
    {
        let eq = str_eq(out[i].as_str(), "/");
        proof {
            assert(eq == (out@[i as int]@ == "/"@));
        }
        if eq {
            proof {
                assert(out.deep_view()[i as int] == out@[i as int]@);
                assert(out.deep_view()[i as int] == "/"@);
            }
            return out;
        }
        i = i + 1;
    }
    proof {
        assert forall|k: int| 0 <= k < out@.len() implies out.deep_view()[k] == out@[k]@ by {}
        assert(!(exists|k: int|
            0 <= k < drives_from(mounts@, 0).len() && drives_from(mounts@, 0)[k] == "/"@));
    }
    let ghost out0 = out.deep_view();
    out.push("/".to_owned());
    proof {
        assert(out.deep_view() =~= out0.push("/"@));
    }
    out
}

/// Relies on `chrono::Utc::now` for the wall clock: the current instant as
/// Unix seconds.  Nothing is promised of the value; the underlying call
/// aborts on a system clock that reads before 1970.
#[verifier::external_body]
pub fn now_unix_secs() -> i64 {
    chrono::Utc::now().timestamp()
}

} // verus!
