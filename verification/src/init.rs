//! The script a Nyx VM runs at boot, from the files its share directory holds.
use vstd::prelude::*;
use vstd::string::StringExecFns;

use crate::libraries::chars_of;

verus! {

/// Whether `a` comes before `b`: code point by code point, a prefix first.
pub open spec fn chars_less(a: Seq<char>, b: Seq<char>) -> bool
    decreases a.len(),
{
    if a.len() == 0 {
        b.len() > 0
    } else if b.len() == 0 {
        false
    } else if (a[0] as int) < (b[0] as int) {
        true
    } else if (a[0] as int) > (b[0] as int) {
        false
    } else {
        chars_less(a.drop_first(), b.drop_first())
    }
}

/// Whether `a` orders before `b` as `str`'s `<` orders them: code point by code point, a
/// prefix first.
fn str_less(a: &str, b: &str) -> (r: bool)
    ensures
        r == chars_less(a@, b@),
{
    let x = chars_of(a);
    let y = chars_of(b);
    let mut i: usize = 0;
    assert(a@.skip(0) =~= a@);
    assert(b@.skip(0) =~= b@);
    while i < x.len() && i < y.len()
        invariant
            x@ == a@,
            y@ == b@,
            i <= x@.len(),
            i <= y@.len(),
            chars_less(a@, b@) == chars_less(a@.skip(i as int), b@.skip(i as int)),
        decreases x@.len() - i,
    {
        let c = x[i];
        let d = y[i];
        let ghost sa = a@.skip(i as int);
        let ghost sb = b@.skip(i as int);
        assert(sa[0] == c && sb[0] == d);
        assert(sa.len() > 0 && sb.len() > 0);
        if c < d {
            assert(chars_less(sa, sb));
            return true;
        }
        if c > d {
            assert(!chars_less(sa, sb));
            return false;
        }
        assert(sa.drop_first() =~= a@.skip(i + 1));
        assert(sb.drop_first() =~= b@.skip(i + 1));
        assert(chars_less(sa, sb) == chars_less(sa.drop_first(), sb.drop_first()));
        i = i + 1;
    }
    i >= x.len() && i < y.len()
}

fn append_line(script: &mut String, line: &str)
    ensures
        final(script)@ == old(script)@ + line@ + "\n"@,
{
    script.append(line);
    script.append("\n");
}

/// No string comes before itself.
pub proof fn lemma_chars_less_irreflexive(a: Seq<char>)
    ensures
        !chars_less(a, a),
    decreases a.len(),
{
    if a.len() > 0 {
        lemma_chars_less_irreflexive(a.drop_first());
    }
}

/// Of two different strings, one comes before the other, and not both ways.
pub proof fn lemma_chars_less_total(a: Seq<char>, b: Seq<char>)
    ensures
        a != b ==> chars_less(a, b) || chars_less(b, a),
        !(chars_less(a, b) && chars_less(b, a)),
    decreases a.len(),
{
    if a.len() > 0 && b.len() > 0 && a[0] == b[0] {
        lemma_chars_less_total(a.drop_first(), b.drop_first());
        if a != b {
            assert(a =~= seq![a[0]] + a.drop_first());
            assert(b =~= seq![b[0]] + b.drop_first());
        }
    } else if a.len() > 0 && b.len() > 0 {
        assert((a[0] as int) != (b[0] as int));
    } else if a.len() == 0 && b.len() == 0 {
        assert(a =~= b);
    }
}

/// Coming before is transitive.
pub proof fn lemma_chars_less_transitive(a: Seq<char>, b: Seq<char>, c: Seq<char>)
    requires
        chars_less(a, b),
        chars_less(b, c),
    ensures
        chars_less(a, c),
    decreases a.len(),
{
    if a.len() > 0 && b.len() > 0 && c.len() > 0 && a[0] == b[0] && b[0] == c[0] {
        lemma_chars_less_transitive(a.drop_first(), b.drop_first(), c.drop_first());
    }
}

/// Every string comes before every later one: sorted, and each string at most once.
pub open spec fn strictly_sorted(s: Seq<Seq<char>>) -> bool {
    forall|i: int, j: int| 0 <= i < j < s.len() ==> chars_less(#[trigger] s[i], #[trigger] s[j])
}

/// The strings of a vector, each as its characters.
pub open spec fn string_views(v: Seq<String>) -> Seq<Seq<char>> {
    v.map_values(|s: String| s@)
}

/// Put `name` in its place in a sorted list, unless it is there already. Returns whether it
/// was not.
fn insert_sorted(list: &mut Vec<String>, name: String) -> (new: bool)
    requires
        strictly_sorted(string_views(old(list)@)),
    ensures
        strictly_sorted(string_views(final(list)@)),
        string_views(final(list)@).to_set() == string_views(old(list)@).to_set().insert(name@),
        new == !string_views(old(list)@).contains(name@),
{
    let ghost before = string_views(list@);
    let mut i: usize = 0;
    while i < list.len()
        invariant
            before == string_views(list@),
            strictly_sorted(before),
            i <= list@.len(),
            forall|k: int| 0 <= k < i ==> chars_less(#[trigger] before[k], name@),
        ensures
            i <= list@.len(),
            forall|k: int| 0 <= k < i ==> chars_less(#[trigger] before[k], name@),
            i < list@.len() ==> !chars_less(before[i as int], name@),
        decreases list@.len() - i,
    {
        if !str_less(list[i].as_str(), name.as_str()) {
            break;
        }
        i = i + 1;
    }
    proof {
        assert forall|k: int| i <= k < before.len() implies !chars_less(#[trigger] before[k], name@) by {
            if chars_less(before[k], name@) && k > i {
                assert(chars_less(before[i as int], before[k]));
                lemma_chars_less_transitive(before[i as int], before[k], name@);
            }
        }
    }
    if i < list.len() && !str_less(name.as_str(), list[i].as_str()) {
        proof {
            lemma_chars_less_total(before[i as int], name@);
            assert(before[i as int] == name@);
            assert(before.to_set().insert(name@) =~= before.to_set());
        }
        return false;
    }
    proof {
        assert(!before.contains(name@)) by {
            if before.contains(name@) {
                let k = choose|k: int| 0 <= k < before.len() && before[k] == name@;
                lemma_chars_less_irreflexive(name@);
                if k >= i {
                    assert(k == i);
                    lemma_chars_less_irreflexive(name@);
                }
            }
        }
        if i < before.len() {
            lemma_chars_less_total(before[i as int], name@);
            assert(before[i as int] != name@);
            assert(chars_less(name@, before[i as int]));
        }
    }
    let ghost name_view = name@;
    list.insert(i, name);
    proof {
        let after = string_views(list@);
        assert(after =~= before.insert(i as int, name_view));
        assert forall|a: int, b: int| 0 <= a < b < after.len() implies chars_less(#[trigger] after[a], #[trigger] after[b]) by {
            if b > i {
                assert(after[b] == before[b - 1]);
                assert(chars_less(name_view, before[i as int]));
                if b - 1 > i {
                    assert(chars_less(before[i as int], before[b - 1]));
                    lemma_chars_less_transitive(name_view, before[i as int], before[b - 1]);
                }
                assert(chars_less(name_view, after[b]));
                if a < i {
                    lemma_chars_less_transitive(after[a], name_view, after[b]);
                } else if a > i {
                    assert(after[a] == before[a - 1]);
                }
            }
        }
        assert(after.to_set() =~= before.to_set().insert(name_view)) by {
            assert forall|x: Seq<char>| after.to_set().contains(x) <==> before.to_set().insert(name_view).contains(x) by {
                if after.contains(x) {
                    let k = choose|k: int| 0 <= k < after.len() && after[k] == x;
                    if k < i {
                        assert(before[k] == x);
                    } else if k > i {
                        assert(before[k - 1] == x);
                    }
                }
                if before.contains(x) {
                    let k = choose|k: int| 0 <= k < before.len() && before[k] == x;
                    if k < i {
                        assert(after[k] == x);
                    } else {
                        assert(after[k + 1] == x);
                    }
                }
                if x == name_view {
                    assert(after[i as int] == x);
                }
            }
        }
    }
    true
}

/// What the VM fetches from the share directory: files copied there by their base name, each
/// once and in order, and those of them to make executable.
pub struct Contents {
    files: Vec<String>,
    executables: Vec<String>,
}

impl Contents {
    /// The files the VM fetches, in order.
    pub closed spec fn files(&self) -> Seq<Seq<char>> {
        string_views(self.files@)
    }

    /// The files the VM makes executable, in order.
    pub closed spec fn executables(&self) -> Seq<Seq<char>> {
        string_views(self.executables@)
    }

    /// Both lists are in order, each name once.
    pub closed spec fn wf(&self) -> bool {
        strictly_sorted(self.files()) && strictly_sorted(self.executables())
    }

    pub fn new() -> (c: Self)
        ensures
            c.wf(),
            c.files() == Seq::<Seq<char>>::empty(),
            c.executables() == Seq::<Seq<char>>::empty(),
    {
        let c = Contents { files: Vec::new(), executables: Vec::new() };
        assert(c.files() =~= Seq::<Seq<char>>::empty());
        assert(c.executables() =~= Seq::<Seq<char>>::empty());
        c
    }

    /// Fetch a file into the VM.
    pub fn insert_file(&mut self, name: String)
        requires
            old(self).wf(),
        ensures
            final(self).wf(),
            final(self).files().to_set() == old(self).files().to_set().insert(name@),
            final(self).executables() == old(self).executables(),
    {
        insert_sorted(&mut self.files, name);
    }

    /// Make a file executable in the VM.
    pub fn insert_executable(&mut self, name: String)
        requires
            old(self).wf(),
        ensures
            final(self).wf(),
            final(self).executables().to_set() == old(self).executables().to_set().insert(name@),
            final(self).files() == old(self).files(),
    {
        insert_sorted(&mut self.executables, name);
    }

    /// A file copied into the share directory under `name`: fetched, and made executable if it
    /// is one.
    pub fn add(&mut self, name: String, executable: bool)
        requires
            old(self).wf(),
        ensures
            final(self).wf(),
            final(self).files().to_set() == old(self).files().to_set().insert(name@),
            final(self).executables().to_set() == if executable {
                old(self).executables().to_set().insert(name@)
            } else {
                old(self).executables().to_set()
            },
    {
        let copy = name.clone();
        self.insert_file(name);
        if executable {
            self.insert_executable(copy);
        }
    }
}

/// The lines joined, each ended by a line break.
pub open spec fn joined(lines: Seq<Seq<char>>) -> Seq<char>
    decreases lines.len(),
{
    if lines.len() == 0 {
        Seq::empty()
    } else {
        joined(lines.drop_last()) + lines.last() + "\n"@
    }
}

/// The lines of the script Nyx runs when the VM boots.
pub open spec fn boot_lines(files: Seq<Seq<char>>, executables: Seq<Seq<char>>, scenario: Seq<char>, pool: Seq<char>, crash_handler: Seq<char>) -> Seq<Seq<char>> {
    seq![
        "chmod +x hget"@,
        "cp hget /tmp"@,
        "cd /tmp"@,
        "echo 0 > /proc/sys/kernel/randomize_va_space"@,
        "echo 0 > /proc/sys/kernel/printk"@,
        "./hget hcat_no_pt hcat"@,
        "./hget habort_no_pt habort"@,
    ] + files.map_values(|f: Seq<char>| "./hget "@ + f + " "@ + f) + seq![
        "./hget template-provider.tar template-provider.tar"@,
        "mkdir -p template-provider"@,
        "tar -xf template-provider.tar -C template-provider"@,
        "chmod +x habort hcat"@,
    ] + executables.map_values(|e: Seq<char>| "chmod +x "@ + e) + seq![
        "chmod +x template-provider/*/bin/* template-provider/*/libexec/*"@,
        "export __AFL_DEFER_FORKSRV=1"@,
        "ip addr add 127.0.0.1/8 dev lo"@,
        "ip link set lo up"@,
        "ip a | ./hcat"@,
        "echo '#!/bin/sh' > ./pool_proxy"@,
        "echo 'LD_LIBRARY_PATH=/tmp LD_BIND_NOW=1 LD_PRELOAD=./"@ + crash_handler + " ./"@ + pool + " \"$@\"' >> ./pool_proxy"@,
        "chmod +x ./pool_proxy"@,
        "RUST_LOG=info LD_LIBRARY_PATH=/tmp LD_BIND_NOW=1 ./"@ + scenario + " ./pool_proxy > log.txt 2>&1"@,
        "cat log.txt | ./hcat"@,
        "./habort \"target has terminated without initializing the fuzzing agent ...\""@,
    ]
}

/// Append one line, keeping `script` the joining of the lines so far.
fn push_line(script: &mut String, line: &str, Ghost(lines): Ghost<Seq<Seq<char>>>)
    requires
        old(script)@ == joined(lines),
    ensures
        final(script)@ == joined(lines.push(line@)),
{
    append_line(script, line);
    assert(lines.push(line@).drop_last() =~= lines);
}

/// The script Nyx runs when the VM boots: fetch everything in, bring the loopback up, and
/// start the scenario with the pool wrapped so that the crash handler is preloaded into it.
pub fn boot_script(contents: &Contents, scenario: &str, pool: &str, crash_handler: &str) -> (script: String)
    ensures
        script@ == joined(boot_lines(contents.files(), contents.executables(), scenario@, pool@, crash_handler@)),
{
    let ghost files = contents.files();
    let ghost executables = contents.executables();
    let mut script = String::new();
    let ghost mut lines: Seq<Seq<char>> = Seq::empty();
    assert(script@ =~= joined(lines));
    push_line(&mut script, "chmod +x hget", Ghost(lines));
    proof { lines = lines.push("chmod +x hget"@); }
    push_line(&mut script, "cp hget /tmp", Ghost(lines));
    proof { lines = lines.push("cp hget /tmp"@); }
    push_line(&mut script, "cd /tmp", Ghost(lines));
    proof { lines = lines.push("cd /tmp"@); }
    push_line(&mut script, "echo 0 > /proc/sys/kernel/randomize_va_space", Ghost(lines));
    proof { lines = lines.push("echo 0 > /proc/sys/kernel/randomize_va_space"@); }
    push_line(&mut script, "echo 0 > /proc/sys/kernel/printk", Ghost(lines));
    proof { lines = lines.push("echo 0 > /proc/sys/kernel/printk"@); }
    push_line(&mut script, "./hget hcat_no_pt hcat", Ghost(lines));
    proof { lines = lines.push("./hget hcat_no_pt hcat"@); }
    push_line(&mut script, "./hget habort_no_pt habort", Ghost(lines));
    proof { lines = lines.push("./hget habort_no_pt habort"@); }
    let ghost head = lines;

    let mut k: usize = 0;
    while k < contents.files.len()
        invariant
            files == contents.files(),
            files == string_views(contents.files@),
            k <= files.len(),
            script@ == joined(head + files.take(k as int).map_values(|f: Seq<char>| "./hget "@ + f + " "@ + f)),
        decreases files.len() - k,
    {
        let file = contents.files[k].as_str();
        let ghost before = head + files.take(k as int).map_values(|f: Seq<char>| "./hget "@ + f + " "@ + f);
        script.append("./hget ");
        script.append(file);
        script.append(" ");
        script.append(file);
        script.append("\n");
        proof {
            let line = "./hget "@ + files[k as int] + " "@ + files[k as int];
            assert(before.push(line).drop_last() =~= before);
            assert(head + files.take(k + 1).map_values(|f: Seq<char>| "./hget "@ + f + " "@ + f) =~= before.push(line));
        }
        k = k + 1;
    }
    proof {
        assert(files.take(files.len() as int) =~= files);
        lines = head + files.map_values(|f: Seq<char>| "./hget "@ + f + " "@ + f);
    }
    push_line(&mut script, "./hget template-provider.tar template-provider.tar", Ghost(lines));
    proof { lines = lines.push("./hget template-provider.tar template-provider.tar"@); }
    push_line(&mut script, "mkdir -p template-provider", Ghost(lines));
    proof { lines = lines.push("mkdir -p template-provider"@); }
    push_line(&mut script, "tar -xf template-provider.tar -C template-provider", Ghost(lines));
    proof { lines = lines.push("tar -xf template-provider.tar -C template-provider"@); }
    push_line(&mut script, "chmod +x habort hcat", Ghost(lines));
    proof { lines = lines.push("chmod +x habort hcat"@); }
    let ghost middle = lines;

    let mut k: usize = 0;
    while k < contents.executables.len()
        invariant
            executables == contents.executables(),
            executables == string_views(contents.executables@),
            k <= executables.len(),
            script@ == joined(middle + executables.take(k as int).map_values(|e: Seq<char>| "chmod +x "@ + e)),
        decreases executables.len() - k,
    {
        let executable = contents.executables[k].as_str();
        let ghost before = middle + executables.take(k as int).map_values(|e: Seq<char>| "chmod +x "@ + e);
        script.append("chmod +x ");
        script.append(executable);
        script.append("\n");
        proof {
            let line = "chmod +x "@ + executables[k as int];
            assert(before.push(line).drop_last() =~= before);
            assert(middle + executables.take(k + 1).map_values(|e: Seq<char>| "chmod +x "@ + e) =~= before.push(line));
        }
        k = k + 1;
    }
    proof {
        assert(executables.take(executables.len() as int) =~= executables);
        lines = middle + executables.map_values(|e: Seq<char>| "chmod +x "@ + e);
    }
    push_line(&mut script, "chmod +x template-provider/*/bin/* template-provider/*/libexec/*", Ghost(lines));
    proof { lines = lines.push("chmod +x template-provider/*/bin/* template-provider/*/libexec/*"@); }
    push_line(&mut script, "export __AFL_DEFER_FORKSRV=1", Ghost(lines));
    proof { lines = lines.push("export __AFL_DEFER_FORKSRV=1"@); }
    push_line(&mut script, "ip addr add 127.0.0.1/8 dev lo", Ghost(lines));
    proof { lines = lines.push("ip addr add 127.0.0.1/8 dev lo"@); }
    push_line(&mut script, "ip link set lo up", Ghost(lines));
    proof { lines = lines.push("ip link set lo up"@); }
    push_line(&mut script, "ip a | ./hcat", Ghost(lines));
    proof { lines = lines.push("ip a | ./hcat"@); }

    // The pool runs behind a proxy script so that the crash handler is preloaded into it and
    // not into the scenario.
    push_line(&mut script, "echo '#!/bin/sh' > ./pool_proxy", Ghost(lines));
    proof { lines = lines.push("echo '#!/bin/sh' > ./pool_proxy"@); }
    let mut proxy = String::new();
    proxy.append("echo 'LD_LIBRARY_PATH=/tmp LD_BIND_NOW=1 LD_PRELOAD=./");
    proxy.append(crash_handler);
    proxy.append(" ./");
    proxy.append(pool);
    proxy.append(" \"$@\"' >> ./pool_proxy");
    push_line(&mut script, proxy.as_str(), Ghost(lines));
    proof { lines = lines.push(proxy@); }
    push_line(&mut script, "chmod +x ./pool_proxy", Ghost(lines));
    proof { lines = lines.push("chmod +x ./pool_proxy"@); }

    let mut run = String::new();
    run.append("RUST_LOG=info LD_LIBRARY_PATH=/tmp LD_BIND_NOW=1 ./");
    run.append(scenario);
    run.append(" ./pool_proxy > log.txt 2>&1");
    push_line(&mut script, run.as_str(), Ghost(lines));
    proof { lines = lines.push(run@); }
    push_line(&mut script, "cat log.txt | ./hcat", Ghost(lines));
    proof { lines = lines.push("cat log.txt | ./hcat"@); }
    push_line(&mut script, "./habort \"target has terminated without initializing the fuzzing agent ...\"", Ghost(lines));
    proof {
        lines = lines.push("./habort \"target has terminated without initializing the fuzzing agent ...\""@);
        assert(lines =~= boot_lines(files, executables, scenario@, pool@, crash_handler@));
    }
    script
}

/// What the name of a template provider directory's entry starts with when the entry holds a
/// Bitcoin Core release, as sv2-apps' launcher unpacks one: `bitcoin-`.
pub open spec fn release_prefix() -> Seq<char> {
    seq!['b', 'i', 't', 'c', 'o', 'i', 'n', '-']
}

/// Whether the template provider directory's entry `name` holds a Bitcoin Core release: the
/// entries whose binaries the VM needs and that are packed into its archive.
pub fn is_release_entry(name: &str) -> (b: bool)
    ensures
        b == (name@.len() >= release_prefix().len() && name@.subrange(0, release_prefix().len() as int) == release_prefix()),
{
    let chars = crate::libraries::chars_of(name);
    let prefix: Vec<char> = vec!['b', 'i', 't', 'c', 'o', 'i', 'n', '-'];
    assert(prefix@ == release_prefix());
    if chars.len() < prefix.len() {
        return false;
    }
    let mut i: usize = 0;
    while i < prefix.len()
        invariant
            i <= prefix@.len(),
            prefix@ == release_prefix(),
            chars@ == name@,
            chars@.len() >= prefix@.len(),
            forall|k: int| 0 <= k < i ==> chars@[k] == prefix@[k],
        decreases prefix@.len() - i,
    {
        if chars[i] != prefix[i] {
            assert(name@.subrange(0, 8)[i as int] != release_prefix()[i as int]);
            return false;
        }
        i = i + 1;
    }
    assert(name@.subrange(0, 8) =~= release_prefix());
    true
}

} // verus!
