//! Translations for user facing text.
//!
//! The table is kept sorted by the original text because a lookup is a
//! binary search; a missing entry gives the original back unchanged, which is
//! what makes a partially translated build usable.

use vstd::prelude::*;
use crate::text::chars_of;

verus! {

/// Whether `a` comes before `b` in the order of their characters: at the
/// first place they differ `a` has the smaller character, or `a` is a
/// proper prefix of `b`.
pub open spec fn lex_lt(a: Seq<char>, b: Seq<char>) -> bool {
    exists|k: int| #![trigger a.take(k), b.take(k)] lt_at(a, b, k)
}

/// `a` and `b` agree before `k`, and `k` is where `a` comes first.
pub open spec fn lt_at(a: Seq<char>, b: Seq<char>, k: int) -> bool {
    &&& 0 <= k <= a.len()
    &&& k <= b.len()
    &&& a.take(k) == b.take(k)
    &&& (k == a.len() && k < b.len()) || (k < a.len() && k < b.len() && a[k] < b[k])
}

/// Nothing comes before itself.
pub proof fn lemma_lex_irreflexive(a: Seq<char>)
    ensures
        !lex_lt(a, a),
{
}

/// The order is transitive.
pub proof fn lemma_lex_transitive(a: Seq<char>, b: Seq<char>, c: Seq<char>)
    requires
        lex_lt(a, b),
        lex_lt(b, c),
    ensures
        lex_lt(a, c),
{
    let k1 = choose|k: int| #![trigger a.take(k), b.take(k)] lt_at(a, b, k);
    let k2 = choose|k: int| #![trigger b.take(k), c.take(k)] lt_at(b, c, k);
    let k = if k1 < k2 { k1 } else { k2 };
    assert forall|j: int| 0 <= j < k implies a[j] == c[j] by {
        assert(a.take(k1)[j] == b.take(k1)[j]);
        assert(b.take(k2)[j] == c.take(k2)[j]);
    }
    assert(a.take(k) =~= c.take(k));
    if k1 < k2 {
        assert(b.take(k2)[k1] == c.take(k2)[k1]);
    } else if k2 < k1 {
        assert(a.take(k1)[k2] == b.take(k1)[k2]);
    }
    assert(lt_at(a, c, k));
}

/// Two texts that differ are ordered one way or the other.
pub proof fn lemma_lex_total(a: Seq<char>, b: Seq<char>)
    requires
        a != b,
    ensures
        lex_lt(a, b) || lex_lt(b, a),
{
    let n = if a.len() < b.len() { a.len() as int } else { b.len() as int };
    if forall|j: int| 0 <= j < n ==> a[j] == b[j] {
        assert(a.take(n) =~= b.take(n));
        if a.len() == b.len() {
            assert(a =~= b);
        } else if a.len() < b.len() {
            assert(lt_at(a, b, n));
        } else {
            assert(lt_at(b, a, n));
        }
    } else {
        let d = choose|j: int| 0 <= j < n && a[j] != b[j];
        let k = first_difference(a, b, d);
        assert(a.take(k) =~= b.take(k));
        if a[k] < b[k] {
            assert(lt_at(a, b, k));
        } else {
            assert(lt_at(b, a, k));
        }
    }
}

/// The first place before or at `d` where `a` and `b` differ.
proof fn first_difference(a: Seq<char>, b: Seq<char>, d: int) -> (k: int)
    requires
        0 <= d < a.len(),
        d < b.len(),
        a[d] != b[d],
    ensures
        0 <= k <= d,
        a[k] != b[k],
        forall|j: int| 0 <= j < k ==> a[j] == b[j],
    decreases d,
{
    if exists|j: int| 0 <= j < d && a[j] != b[j] {
        let j = choose|j: int| 0 <= j < d && a[j] != b[j];
        first_difference(a, b, j)
    } else {
        d
    }
}

/// How `a` compares with `b`: -1 before, 0 equal, 1 after.
pub open spec fn spec_compare(a: Seq<char>, b: Seq<char>) -> i8 {
    if a == b {
        0
    } else if lex_lt(a, b) {
        -1i8
    } else {
        1
    }
}

/// Compare two texts by their characters.
pub fn compare(a: &[char], b: &[char]) -> (order: i8)
    ensures
        order == spec_compare(a@, b@),
        order == 1 ==> lex_lt(b@, a@),
{
    let n = if a.len() < b.len() { a.len() } else { b.len() };
    let mut i: usize = 0;
    while i < n
        invariant
            i <= n,
            n <= a@.len(),
            n <= b@.len(),
            n == a@.len() || n == b@.len(),
            a@.take(i as int) =~= b@.take(i as int),
        decreases n - i,
    {
        if a[i] != b[i] {
            proof {
                if a[i as int] < b[i as int] {
                    assert(lt_at(a@, b@, i as int));
                    assert(a@ != b@);
                } else {
                    assert(lt_at(b@, a@, i as int));
                    assert(a@ != b@);
                    if lex_lt(a@, b@) {
                        lemma_lex_transitive(a@, b@, a@);
                        lemma_lex_irreflexive(a@);
                    }
                }
            }
            return if a[i] < b[i] { -1 } else { 1 };
        }
        assert(a@.take(i + 1) =~= a@.take(i as int).push(a@[i as int]));
        assert(b@.take(i + 1) =~= b@.take(i as int).push(b@[i as int]));
        i = i + 1;
    }
    if a.len() == b.len() {
        assert(a@ =~= a@.take(i as int));
        assert(b@ =~= b@.take(i as int));
        return 0;
    }
    if a.len() < b.len() {
        assert(lt_at(a@, b@, i as int));
        assert(a@.len() != b@.len());
        -1
    } else {
        proof {
            assert(lt_at(b@, a@, i as int));
            assert(a@.len() != b@.len());
            if lex_lt(a@, b@) {
                lemma_lex_transitive(a@, b@, a@);
                lemma_lex_irreflexive(a@);
            }
        }
        1
    }
}

} // verus!

verus! {

/// The table, as (original, translation) pairs sorted by the original.
pub open spec fn spec_table() -> Seq<(Seq<char>, Seq<char>)> {
    seq![
        ("Add Folder to Project"@, "向项目添加文件夹"@),
        ("Close Editor"@, "关闭编辑器"@),
        ("Close Project"@, "关闭项目"@),
        ("Close Window"@, "关闭窗口"@),
        ("Copy"@, "复制"@),
        ("Cut"@, "剪切"@),
        ("Edit"@, "编辑"@),
        ("File"@, "文件"@),
        ("Find"@, "查找"@),
        ("Go"@, "转到"@),
        ("Help"@, "帮助"@),
        ("New"@, "新建"@),
        ("New File"@, "新建文件"@),
        ("New Window"@, "新建窗口"@),
        ("Open File"@, "打开文件"@),
        ("Open Folder"@, "打开文件夹"@),
        ("Open Recent"@, "打开最近"@),
        ("Open Remote"@, "打开远程"@),
        ("Open Settings"@, "打开设置"@),
        ("Paste"@, "粘贴"@),
        ("Quit"@, "退出"@),
        ("Redo"@, "重做"@),
        ("Run"@, "运行"@),
        ("Save"@, "保存"@),
        ("Save All"@, "全部保存"@),
        ("Save As"@, "另存为"@),
        ("Select All"@, "全选"@),
        ("Selection"@, "选择"@),
        ("Undo"@, "撤销"@),
        ("View"@, "视图"@),
        ("Window"@, "窗口"@)
    ]
}

/// The table, as (original, translation) pairs sorted by the original.
pub fn translations() -> (table: Vec<(&'static str, &'static str)>)
    ensures
        table@.len() == spec_table().len(),
        forall|i: int| 0 <= i < table@.len() ==> (#[trigger] table@[i]).0@ == spec_table()[i].0 && table@[i].1@ == spec_table()[i].1,
{
    let mut table: Vec<(&'static str, &'static str)> = Vec::new();
    table.push(("Add Folder to Project", "向项目添加文件夹"));
    table.push(("Close Editor", "关闭编辑器"));
    table.push(("Close Project", "关闭项目"));
    table.push(("Close Window", "关闭窗口"));
    table.push(("Copy", "复制"));
    table.push(("Cut", "剪切"));
    table.push(("Edit", "编辑"));
    table.push(("File", "文件"));
    table.push(("Find", "查找"));
    table.push(("Go", "转到"));
    table.push(("Help", "帮助"));
    table.push(("New", "新建"));
    table.push(("New File", "新建文件"));
    table.push(("New Window", "新建窗口"));
    table.push(("Open File", "打开文件"));
    table.push(("Open Folder", "打开文件夹"));
    table.push(("Open Recent", "打开最近"));
    table.push(("Open Remote", "打开远程"));
    table.push(("Open Settings", "打开设置"));
    table.push(("Paste", "粘贴"));
    table.push(("Quit", "退出"));
    table.push(("Redo", "重做"));
    table.push(("Run", "运行"));
    table.push(("Save", "保存"));
    table.push(("Save All", "全部保存"));
    table.push(("Save As", "另存为"));
    table.push(("Select All", "全选"));
    table.push(("Selection", "选择"));
    table.push(("Undo", "撤销"));
    table.push(("View", "视图"));
    table.push(("Window", "窗口"));
    table
}

/// The originals are in strictly increasing order, neighbour by neighbour.
proof fn lemma_table_neighbours()
    ensures
        forall|i: int| 0 <= i < spec_table().len() - 1 ==> lex_lt(#[trigger] spec_table()[i].0, spec_table()[i + 1].0),
{
    reveal_strlit("Add Folder to Project");
    reveal_strlit("Close Editor");
    reveal_strlit("Close Project");
    reveal_strlit("Close Window");
    reveal_strlit("Copy");
    reveal_strlit("Cut");
    reveal_strlit("Edit");
    reveal_strlit("File");
    reveal_strlit("Find");
    reveal_strlit("Go");
    reveal_strlit("Help");
    reveal_strlit("New");
    reveal_strlit("New File");
    reveal_strlit("New Window");
    reveal_strlit("Open File");
    reveal_strlit("Open Folder");
    reveal_strlit("Open Recent");
    reveal_strlit("Open Remote");
    reveal_strlit("Open Settings");
    reveal_strlit("Paste");
    reveal_strlit("Quit");
    reveal_strlit("Redo");
    reveal_strlit("Run");
    reveal_strlit("Save");
    reveal_strlit("Save All");
    reveal_strlit("Save As");
    reveal_strlit("Select All");
    reveal_strlit("Selection");
    reveal_strlit("Undo");
    reveal_strlit("View");
    reveal_strlit("Window");
    assert(lt_at(spec_table()[0].0, spec_table()[1].0, 0)) by {
        assert(spec_table()[0].0.take(0) =~= spec_table()[1].0.take(0));
    }
    assert(lt_at(spec_table()[1].0, spec_table()[2].0, 6)) by {
        assert(spec_table()[1].0.take(6) =~= spec_table()[2].0.take(6));
    }
    assert(lt_at(spec_table()[2].0, spec_table()[3].0, 6)) by {
        assert(spec_table()[2].0.take(6) =~= spec_table()[3].0.take(6));
    }
    assert(lt_at(spec_table()[3].0, spec_table()[4].0, 1)) by {
        assert(spec_table()[3].0.take(1) =~= spec_table()[4].0.take(1));
    }
    assert(lt_at(spec_table()[4].0, spec_table()[5].0, 1)) by {
        assert(spec_table()[4].0.take(1) =~= spec_table()[5].0.take(1));
    }
    assert(lt_at(spec_table()[5].0, spec_table()[6].0, 0)) by {
        assert(spec_table()[5].0.take(0) =~= spec_table()[6].0.take(0));
    }
    assert(lt_at(spec_table()[6].0, spec_table()[7].0, 0)) by {
        assert(spec_table()[6].0.take(0) =~= spec_table()[7].0.take(0));
    }
    assert(lt_at(spec_table()[7].0, spec_table()[8].0, 2)) by {
        assert(spec_table()[7].0.take(2) =~= spec_table()[8].0.take(2));
    }
    assert(lt_at(spec_table()[8].0, spec_table()[9].0, 0)) by {
        assert(spec_table()[8].0.take(0) =~= spec_table()[9].0.take(0));
    }
    assert(lt_at(spec_table()[9].0, spec_table()[10].0, 0)) by {
        assert(spec_table()[9].0.take(0) =~= spec_table()[10].0.take(0));
    }
    assert(lt_at(spec_table()[10].0, spec_table()[11].0, 0)) by {
        assert(spec_table()[10].0.take(0) =~= spec_table()[11].0.take(0));
    }
    assert(lt_at(spec_table()[11].0, spec_table()[12].0, 3)) by {
        assert(spec_table()[11].0.take(3) =~= spec_table()[12].0.take(3));
    }
    assert(lt_at(spec_table()[12].0, spec_table()[13].0, 4)) by {
        assert(spec_table()[12].0.take(4) =~= spec_table()[13].0.take(4));
    }
    assert(lt_at(spec_table()[13].0, spec_table()[14].0, 0)) by {
        assert(spec_table()[13].0.take(0) =~= spec_table()[14].0.take(0));
    }
    assert(lt_at(spec_table()[14].0, spec_table()[15].0, 6)) by {
        assert(spec_table()[14].0.take(6) =~= spec_table()[15].0.take(6));
    }
    assert(lt_at(spec_table()[15].0, spec_table()[16].0, 5)) by {
        assert(spec_table()[15].0.take(5) =~= spec_table()[16].0.take(5));
    }
    assert(lt_at(spec_table()[16].0, spec_table()[17].0, 7)) by {
        assert(spec_table()[16].0.take(7) =~= spec_table()[17].0.take(7));
    }
    assert(lt_at(spec_table()[17].0, spec_table()[18].0, 5)) by {
        assert(spec_table()[17].0.take(5) =~= spec_table()[18].0.take(5));
    }
    assert(lt_at(spec_table()[18].0, spec_table()[19].0, 0)) by {
        assert(spec_table()[18].0.take(0) =~= spec_table()[19].0.take(0));
    }
    assert(lt_at(spec_table()[19].0, spec_table()[20].0, 0)) by {
        assert(spec_table()[19].0.take(0) =~= spec_table()[20].0.take(0));
    }
    assert(lt_at(spec_table()[20].0, spec_table()[21].0, 0)) by {
        assert(spec_table()[20].0.take(0) =~= spec_table()[21].0.take(0));
    }
    assert(lt_at(spec_table()[21].0, spec_table()[22].0, 1)) by {
        assert(spec_table()[21].0.take(1) =~= spec_table()[22].0.take(1));
    }
    assert(lt_at(spec_table()[22].0, spec_table()[23].0, 0)) by {
        assert(spec_table()[22].0.take(0) =~= spec_table()[23].0.take(0));
    }
    assert(lt_at(spec_table()[23].0, spec_table()[24].0, 4)) by {
        assert(spec_table()[23].0.take(4) =~= spec_table()[24].0.take(4));
    }
    assert(lt_at(spec_table()[24].0, spec_table()[25].0, 6)) by {
        assert(spec_table()[24].0.take(6) =~= spec_table()[25].0.take(6));
    }
    assert(lt_at(spec_table()[25].0, spec_table()[26].0, 1)) by {
        assert(spec_table()[25].0.take(1) =~= spec_table()[26].0.take(1));
    }
    assert(lt_at(spec_table()[26].0, spec_table()[27].0, 6)) by {
        assert(spec_table()[26].0.take(6) =~= spec_table()[27].0.take(6));
    }
    assert(lt_at(spec_table()[27].0, spec_table()[28].0, 0)) by {
        assert(spec_table()[27].0.take(0) =~= spec_table()[28].0.take(0));
    }
    assert(lt_at(spec_table()[28].0, spec_table()[29].0, 0)) by {
        assert(spec_table()[28].0.take(0) =~= spec_table()[29].0.take(0));
    }
    assert(lt_at(spec_table()[29].0, spec_table()[30].0, 0)) by {
        assert(spec_table()[29].0.take(0) =~= spec_table()[30].0.take(0));
    }
}

} // verus!

verus! {

/// The originals are in strictly increasing order.
proof fn lemma_table_sorted(i: int, j: int)
    requires
        0 <= i < j < spec_table().len(),
    ensures
        lex_lt(spec_table()[i].0, spec_table()[j].0),
    decreases j - i,
{
    lemma_table_neighbours();
    if j == i + 1 {
        assert(lex_lt(spec_table()[i].0, spec_table()[i + 1].0));
    } else {
        lemma_table_sorted(i, j - 1);
        assert(lex_lt(spec_table()[j - 1].0, spec_table()[j].0));
        lemma_lex_transitive(spec_table()[i].0, spec_table()[j - 1].0, spec_table()[j].0);
    }
}

/// The translation the table has for `text`, if any.
pub open spec fn spec_translation(text: Seq<char>) -> Option<Seq<char>> {
    if exists|i: int| 0 <= i < spec_table().len() && #[trigger] spec_table()[i].0 == text {
        Some(spec_table()[choose|i: int| 0 <= i < spec_table().len() && #[trigger] spec_table()[i].0 == text].1)
    } else {
        None
    }
}

/// Each original is in the table once.
pub proof fn originals_are_distinct(i: int, j: int)
    requires
        0 <= i < spec_table().len(),
        0 <= j < spec_table().len(),
        spec_table()[i].0 == spec_table()[j].0,
    ensures
        i == j,
{
    if i < j {
        lemma_table_sorted(i, j);
        lemma_lex_irreflexive(spec_table()[i].0);
    } else if j < i {
        lemma_table_sorted(j, i);
        lemma_lex_irreflexive(spec_table()[i].0);
    }
}

/// Binary search for `text` among the originals.
fn find(table: &Vec<(&'static str, &'static str)>, text: &str) -> (found: Option<usize>)
    requires
        table@.len() == spec_table().len(),
        forall|i: int| 0 <= i < table@.len() ==> (#[trigger] table@[i]).0@ == spec_table()[i].0 && table@[i].1@ == spec_table()[i].1,
    ensures
        match found {
            Some(i) => i < table@.len() && spec_table()[i as int].0 == text@,
            None => forall|i: int| 0 <= i < spec_table().len() ==> #[trigger] spec_table()[i].0 != text@,
        },
{
    let target = chars_of(text);
    let mut lo: usize = 0;
    let mut hi: usize = table.len();
    while lo < hi
        invariant
            lo <= hi <= table@.len(),
            table@.len() == spec_table().len(),
            forall|i: int| 0 <= i < table@.len() ==> (#[trigger] table@[i]).0@ == spec_table()[i].0 && table@[i].1@ == spec_table()[i].1,
            target@ == text@,
            forall|i: int| 0 <= i < lo ==> lex_lt(#[trigger] spec_table()[i].0, text@),
            forall|i: int| hi <= i < table@.len() ==> lex_lt(text@, #[trigger] spec_table()[i].0),
        decreases hi - lo,
    {
        let mid = lo + (hi - lo) / 2;
        let key = chars_of(table[mid].0);
        assert(key@ == spec_table()[mid as int].0);
        let order = compare(key.as_slice(), target.as_slice());
        if order == 0 {
            return Some(mid);
        }
        if order < 0 {
            proof {
                assert forall|i: int| 0 <= i < mid + 1 implies lex_lt(#[trigger] spec_table()[i].0, text@) by {
                    if i < mid {
                        lemma_table_sorted(i, mid as int);
                        lemma_lex_transitive(spec_table()[i].0, spec_table()[mid as int].0, text@);
                    }
                }
            }
            lo = mid + 1;
        } else {
            proof {
                assert forall|i: int| mid <= i < table@.len() implies lex_lt(text@, #[trigger] spec_table()[i].0) by {
                    if i > mid {
                        lemma_table_sorted(mid as int, i);
                        lemma_lex_transitive(text@, spec_table()[mid as int].0, spec_table()[i].0);
                    }
                }
            }
            hi = mid;
        }
    }
    proof {
        assert forall|i: int| 0 <= i < spec_table().len() implies #[trigger] spec_table()[i].0 != text@ by {
            lemma_lex_irreflexive(text@);
        }
    }
    None
}

/// The translation `found` names for `text`.
proof fn lemma_found(text: Seq<char>, i: int)
    requires
        0 <= i < spec_table().len(),
        spec_table()[i].0 == text,
    ensures
        spec_translation(text) == Some(spec_table()[i].1),
{
    assert forall|k: int| 0 <= k < spec_table().len() && #[trigger] spec_table()[k].0 == text implies k == i by {
        originals_are_distinct(i, k);
    }
    assert(exists|k: int| 0 <= k < spec_table().len() && #[trigger] spec_table()[k].0 == text);
}

/// Translate a display name that may carry a namespace: the table is keyed
/// by the plain `name`; without an entry for it, `scoped`, the caller's
/// text with the namespace, is given back unchanged.
pub fn tr_scoped(name: &'static str, scoped: &'static str) -> (text: &'static str)
    ensures
        text@ == match spec_translation(name@) {
            Some(t) => t,
            None => scoped@,
        },
{
    let table = translations();
    match find(&table, name) {
        Some(i) => {
            proof {
                lemma_found(name@, i as int);
            }
            table[i].1
        },
        None => scoped,
    }
}

/// Translate a string that carries no namespace, giving it back unchanged
/// when the table has no entry for it.
pub fn tr(text: &'static str) -> (translated: &'static str)
    ensures
        translated@ == spec_tr(text@),
{
    tr_scoped(text, text)
}


/// What `tr` gives for `text`: its translation, or `text` itself.
pub open spec fn spec_tr(text: Seq<char>) -> Seq<char> {
    match spec_translation(text) {
        Some(t) => t,
        None => text,
    }
}

/// Every original starts with an ASCII character and every translation with
/// a character beyond ASCII.
proof fn lemma_table_scripts()
    ensures
        forall|i: int| 0 <= i < spec_table().len() ==> {
            &&& (#[trigger] spec_table()[i]).0.len() > 0
            &&& (spec_table()[i].0[0] as u32) < 128
            &&& spec_table()[i].1.len() > 0
            &&& (spec_table()[i].1[0] as u32) >= 128
        },
{
    reveal_strlit("Add Folder to Project");
    reveal_strlit("向项目添加文件夹");
    reveal_strlit("Close Editor");
    reveal_strlit("关闭编辑器");
    reveal_strlit("Close Project");
    reveal_strlit("关闭项目");
    reveal_strlit("Close Window");
    reveal_strlit("关闭窗口");
    reveal_strlit("Copy");
    reveal_strlit("复制");
    reveal_strlit("Cut");
    reveal_strlit("剪切");
    reveal_strlit("Edit");
    reveal_strlit("编辑");
    reveal_strlit("File");
    reveal_strlit("文件");
    reveal_strlit("Find");
    reveal_strlit("查找");
    reveal_strlit("Go");
    reveal_strlit("转到");
    reveal_strlit("Help");
    reveal_strlit("帮助");
    reveal_strlit("New");
    reveal_strlit("新建");
    reveal_strlit("New File");
    reveal_strlit("新建文件");
    reveal_strlit("New Window");
    reveal_strlit("新建窗口");
    reveal_strlit("Open File");
    reveal_strlit("打开文件");
    reveal_strlit("Open Folder");
    reveal_strlit("打开文件夹");
    reveal_strlit("Open Recent");
    reveal_strlit("打开最近");
    reveal_strlit("Open Remote");
    reveal_strlit("打开远程");
    reveal_strlit("Open Settings");
    reveal_strlit("打开设置");
    reveal_strlit("Paste");
    reveal_strlit("粘贴");
    reveal_strlit("Quit");
    reveal_strlit("退出");
    reveal_strlit("Redo");
    reveal_strlit("重做");
    reveal_strlit("Run");
    reveal_strlit("运行");
    reveal_strlit("Save");
    reveal_strlit("保存");
    reveal_strlit("Save All");
    reveal_strlit("全部保存");
    reveal_strlit("Save As");
    reveal_strlit("另存为");
    reveal_strlit("Select All");
    reveal_strlit("全选");
    reveal_strlit("Selection");
    reveal_strlit("选择");
    reveal_strlit("Undo");
    reveal_strlit("撤销");
    reveal_strlit("View");
    reveal_strlit("视图");
    reveal_strlit("Window");
    reveal_strlit("窗口");
}

/// Translating twice is translating once: no translation is itself an
/// original of the table, so a translated text comes back unchanged.
pub proof fn translating_twice_is_translating_once(text: Seq<char>)
    ensures
        spec_tr(spec_tr(text)) == spec_tr(text),
{
    if let Some(t) = spec_translation(text) {
        lemma_table_scripts();
        assert(exists|i: int| 0 <= i < spec_table().len() && #[trigger] spec_table()[i].0 == text);
        let i = choose|i: int| 0 <= i < spec_table().len() && #[trigger] spec_table()[i].0 == text;
        lemma_found(text, i);
        assert(t == spec_table()[i].1);
        assert forall|j: int| 0 <= j < spec_table().len() implies #[trigger] spec_table()[j].0 != t by {
            assert(spec_table()[j].0[0] != t[0]);
        }
    }
}

/// Each menu word is translated as its own entry says, and as nothing else:
/// "Undo" is "撤销" and "Redo" is "重做", and so on for every word the menus
/// use.
pub proof fn menu_words_have_their_own_translations()
    ensures
        spec_tr("Add Folder to Project"@) == "向项目添加文件夹"@,
        spec_tr("Close Editor"@) == "关闭编辑器"@,
        spec_tr("Close Project"@) == "关闭项目"@,
        spec_tr("Close Window"@) == "关闭窗口"@,
        spec_tr("Copy"@) == "复制"@,
        spec_tr("Cut"@) == "剪切"@,
        spec_tr("Edit"@) == "编辑"@,
        spec_tr("File"@) == "文件"@,
        spec_tr("Find"@) == "查找"@,
        spec_tr("Go"@) == "转到"@,
        spec_tr("Help"@) == "帮助"@,
        spec_tr("New"@) == "新建"@,
        spec_tr("New File"@) == "新建文件"@,
        spec_tr("New Window"@) == "新建窗口"@,
        spec_tr("Open File"@) == "打开文件"@,
        spec_tr("Open Folder"@) == "打开文件夹"@,
        spec_tr("Open Recent"@) == "打开最近"@,
        spec_tr("Open Remote"@) == "打开远程"@,
        spec_tr("Open Settings"@) == "打开设置"@,
        spec_tr("Paste"@) == "粘贴"@,
        spec_tr("Quit"@) == "退出"@,
        spec_tr("Redo"@) == "重做"@,
        spec_tr("Run"@) == "运行"@,
        spec_tr("Save"@) == "保存"@,
        spec_tr("Save All"@) == "全部保存"@,
        spec_tr("Save As"@) == "另存为"@,
        spec_tr("Select All"@) == "全选"@,
        spec_tr("Selection"@) == "选择"@,
        spec_tr("Undo"@) == "撤销"@,
        spec_tr("View"@) == "视图"@,
        spec_tr("Window"@) == "窗口"@,
{
    lemma_found("Add Folder to Project"@, 0);
    lemma_found("Close Editor"@, 1);
    lemma_found("Close Project"@, 2);
    lemma_found("Close Window"@, 3);
    lemma_found("Copy"@, 4);
    lemma_found("Cut"@, 5);
    lemma_found("Edit"@, 6);
    lemma_found("File"@, 7);
    lemma_found("Find"@, 8);
    lemma_found("Go"@, 9);
    lemma_found("Help"@, 10);
    lemma_found("New"@, 11);
    lemma_found("New File"@, 12);
    lemma_found("New Window"@, 13);
    lemma_found("Open File"@, 14);
    lemma_found("Open Folder"@, 15);
    lemma_found("Open Recent"@, 16);
    lemma_found("Open Remote"@, 17);
    lemma_found("Open Settings"@, 18);
    lemma_found("Paste"@, 19);
    lemma_found("Quit"@, 20);
    lemma_found("Redo"@, 21);
    lemma_found("Run"@, 22);
    lemma_found("Save"@, 23);
    lemma_found("Save All"@, 24);
    lemma_found("Save As"@, 25);
    lemma_found("Select All"@, 26);
    lemma_found("Selection"@, 27);
    lemma_found("Undo"@, 28);
    lemma_found("View"@, 29);
    lemma_found("Window"@, 30);
}

/// No two menu words share a translation.
#[verifier::rlimit(100)]
pub proof fn translations_are_distinct(i: int, j: int)
    requires
        0 <= i < j < spec_table().len(),
    ensures
        spec_table()[i].1 != spec_table()[j].1,
{
    let x = spec_table()[i].1;
    let y = spec_table()[j].1;
    reveal_strlit("向项目添加文件夹");
    reveal_strlit("关闭编辑器");
    reveal_strlit("关闭项目");
    reveal_strlit("关闭窗口");
    reveal_strlit("复制");
    reveal_strlit("剪切");
    reveal_strlit("编辑");
    reveal_strlit("文件");
    reveal_strlit("查找");
    reveal_strlit("转到");
    reveal_strlit("帮助");
    reveal_strlit("新建");
    reveal_strlit("新建文件");
    reveal_strlit("新建窗口");
    reveal_strlit("打开文件");
    reveal_strlit("打开文件夹");
    reveal_strlit("打开最近");
    reveal_strlit("打开远程");
    reveal_strlit("打开设置");
    reveal_strlit("粘贴");
    reveal_strlit("退出");
    reveal_strlit("重做");
    reveal_strlit("运行");
    reveal_strlit("保存");
    reveal_strlit("全部保存");
    reveal_strlit("另存为");
    reveal_strlit("全选");
    reveal_strlit("选择");
    reveal_strlit("撤销");
    reveal_strlit("视图");
    reveal_strlit("窗口");
    if x == y {
        assert(x.len() == y.len());
        assert(x[0] == y[0]);
        assert(x[x.len() - 1] == y[y.len() - 1]);
    }
}

} // verus!
