//! A trie: a symbol table whose keys are strings of characters with codes
//! below 256, with one node for each prefix of a key.

use vstd::pervasive::VecAdditionalExecFns;
use vstd::prelude::*;
use vstd::string::StrSliceExecFns;

verus! {

/// The number of children of a node: one for each character code.
const R: usize = 256;

type Link<T> = Option<Box<Node<T>>>;

#[derive(Debug)]
struct Node<T> {
    val: Option<T>,
    next: Vec<Link<T>>,
}

/// Every character of `s` has a code below 256.
pub open spec fn narrow(s: Seq<char>) -> bool {
    forall|i: int| 0 <= i < s.len() ==> (#[trigger] s[i]) as int <= 255
}

/// Every character of `s` has a code below 128.
pub open spec fn plain(s: Seq<char>) -> bool {
    forall|i: int| 0 <= i < s.len() ==> (#[trigger] s[i]) as int <= 127
}

/// The character with the code `c`.
pub open spec fn letter(c: int) -> char {
    c as char
}

/// The code of a character is not negative, and characters with one code
/// are one character.
proof fn lemma_code(a: char, b: char)
    ensures
        0 <= a as int,
        a as u32 as int == a as int,
        a as int == b as int ==> a == b,
{
}

/// The number of nodes below `t`.
spec fn count<T>(t: Link<T>) -> nat
    decreases t,
{
    match t {
        Some(node) => 1 + count_upto(node.next@, node.next@.len() as int),
        None => 0,
    }
}

spec fn count_upto<T>(links: Seq<Link<T>>, k: int) -> nat
    decreases links, k,
{
    if k <= 0 || k > links.len() {
        0
    } else {
        count_upto(links, k - 1) + count(links[k - 1])
    }
}

proof fn lemma_count_member<T>(links: Seq<Link<T>>, k: int, j: int)
    requires
        0 <= j < k <= links.len(),
    ensures
        count(links[j]) <= count_upto(links, k),
    decreases k,
{
    if j < k - 1 {
        lemma_count_member(links, k - 1, j);
    }
}

/// Every node below `t` has a child link for each character code.
spec fn shaped<T>(t: Link<T>) -> bool
    decreases t,
{
    match t {
        Some(node) => node.next@.len() == R && shaped_upto(node.next@, node.next@.len() as int),
        None => true,
    }
}

spec fn shaped_upto<T>(links: Seq<Link<T>>, k: int) -> bool
    decreases links, k,
{
    if k <= 0 || k > links.len() {
        true
    } else {
        shaped_upto(links, k - 1) && shaped(links[k - 1])
    }
}

proof fn lemma_shaped_member<T>(links: Seq<Link<T>>, k: int, j: int)
    requires
        0 <= j < k <= links.len(),
        shaped_upto(links, k),
    ensures
        shaped(links[j]),
    decreases k,
{
    if j < k - 1 {
        lemma_shaped_member(links, k - 1, j);
    }
}

proof fn lemma_shaped_all<T>(links: Seq<Link<T>>, k: int)
    requires
        0 <= k <= links.len(),
        forall|j: int| 0 <= j < k ==> shaped(#[trigger] links[j]),
    ensures
        shaped_upto(links, k),
    decreases k,
{
    if k > 0 {
        lemma_shaped_all(links, k - 1);
    }
}

/// The node that the characters of `s` lead to from `t`.
spec fn descend<T>(t: Link<T>, s: Seq<char>) -> Link<T>
    decreases s.len(),
{
    match t {
        None => None,
        Some(node) => if s.len() == 0 {
            t
        } else if (s[0] as int) < node.next@.len() {
            descend(node.next@[s[0] as int], s.drop_first())
        } else {
            None
        },
    }
}

/// The value stored at the node that `s` leads to from `t`.
spec fn find<T>(t: Link<T>, s: Seq<char>) -> Option<T> {
    match descend(t, s) {
        Some(node) => node.val,
        None => None,
    }
}

/// The keys below `t` that consist of characters with codes below 128, each
/// behind the prefix `pre`, in the order of the character codes.
spec fn listing<T>(t: Link<T>, pre: Seq<char>) -> Seq<Seq<char>>
    decreases t,
{
    match t {
        Some(node) => (if node.val is Some {
            seq![pre]
        } else {
            Seq::empty()
        }) + listing_upto(node.next@, pre, node.next@.len() as int),
        None => Seq::empty(),
    }
}

spec fn listing_upto<T>(links: Seq<Link<T>>, pre: Seq<char>, k: int) -> Seq<Seq<char>>
    decreases links, k,
{
    if k <= 0 || k > links.len() {
        Seq::empty()
    } else if k - 1 < 128 {
        listing_upto(links, pre, k - 1) + listing(links[k - 1], pre.push(letter(k - 1)))
    } else {
        listing_upto(links, pre, k - 1)
    }
}

/// `k` begins with `pre`.
pub open spec fn begins_with(k: Seq<char>, pre: Seq<char>) -> bool {
    pre.len() <= k.len() && k.take(pre.len() as int) == pre
}

/// What is in a concatenation is in one of its parts.
proof fn lemma_concat_contains<A>(a: Seq<A>, b: Seq<A>, x: A)
    ensures
        (a + b).contains(x) <==> a.contains(x) || b.contains(x),
{
    if a.contains(x) {
        let i = choose|i: int| 0 <= i < a.len() && a[i] == x;
        assert((a + b)[i] == x);
    }
    if b.contains(x) {
        let i = choose|i: int| 0 <= i < b.len() && b[i] == x;
        assert((a + b)[a.len() + i] == x);
    }
    if (a + b).contains(x) {
        let i = choose|i: int| 0 <= i < (a + b).len() && (a + b)[i] == x;
        if i < a.len() {
            assert(a[i] == x);
        } else {
            assert(b[i - a.len()] == x);
        }
    }
}

/// The listing of a tree behind a prefix holds the strings that begin with
/// the prefix and go on with a key of the tree made of characters with
/// codes below 128.
proof fn lemma_listing<T>(t: Link<T>, pre: Seq<char>, k: Seq<char>)
    requires
        shaped(t),
    ensures
        listing(t, pre).contains(k) <==> begins_with(k, pre) && plain(k.skip(pre.len() as int))
            && find(t, k.skip(pre.len() as int)) is Some,
    decreases t,
{
    let rest = k.skip(pre.len() as int);
    match t {
        None => {
            assert(listing(t, pre).len() == 0);
            assert(descend(t, rest) is None);
        },
        Some(node) => {
            let head: Seq<Seq<char>> = if node.val is Some {
                seq![pre]
            } else {
                Seq::empty()
            };
            let tail = listing_upto(node.next@, pre, node.next@.len() as int);
            lemma_concat_contains(head, tail, k);
            lemma_upto(node.next@, pre, R as int, k);
            if head.contains(k) {
                assert(head[0] == pre);
                assert(k == pre);
                assert(k.take(pre.len() as int) =~= pre);
                assert(rest.len() == 0);
            }
            if begins_with(k, pre) && rest.len() == 0 {
                assert(k =~= k.take(pre.len() as int));
                if node.val is Some {
                    assert(head[0] == k);
                }
            }
            if begins_with(k, pre) && rest.len() > 0 {
                lemma_code(rest[0], rest[0]);
                assert(rest[0] == k[pre.len() as int]);
                assert(rest.drop_first() =~= k.skip(pre.len() as int + 1));
                assert(!head.contains(k)) by {
                    if head.contains(k) {
                        assert(head[0] == k);
                    }
                }
                if plain(rest) {
                    assert(rest[0] as int <= 127);
                    assert forall|i: int| 0 <= i < rest.drop_first().len() implies (
                    #[trigger] rest.drop_first()[i]) as int <= 127 by {
                        assert(rest.drop_first()[i] == rest[i + 1]);
                    }
                }
                if rest[0] as int <= 127 && plain(rest.drop_first()) {
                    assert forall|i: int| 0 <= i < rest.len() implies (#[trigger] rest[i]) as int
                        <= 127 by {
                        if i > 0 {
                            assert(rest[i] == rest.drop_first()[i - 1]);
                        }
                    }
                }
            }
        },
    }
}

proof fn lemma_upto<T>(links: Seq<Link<T>>, pre: Seq<char>, n: int, k: Seq<char>)
    requires
        links.len() == R,
        shaped_upto(links, R as int),
        0 <= n <= R,
    ensures
        listing_upto(links, pre, n).contains(k) <==> begins_with(k, pre) && k.len() > pre.len() && (
        k[pre.len() as int] as int) < n && (k[pre.len() as int] as int) < 128 && plain(
            k.skip(pre.len() as int + 1),
        ) && find(links[k[pre.len() as int] as int], k.skip(pre.len() as int + 1)) is Some,
    decreases links, n,
{
    if n > 0 {
        lemma_upto(links, pre, n - 1, k);
        if n - 1 < 128 {
            let longer = pre.push(letter(n - 1));
            let a = listing_upto(links, pre, n - 1);
            let b = listing(links[n - 1], longer);
            lemma_concat_contains(a, b, k);
            lemma_shaped_member(links, R as int, n - 1);
            lemma_listing(links[n - 1], longer, k);
            if begins_with(k, longer) {
                assert(k.take(pre.len() as int) =~= longer.take(pre.len() as int));
                assert(longer.take(pre.len() as int) =~= pre);
                assert(k[pre.len() as int] == k.take(longer.len() as int)[pre.len() as int]);
                assert(k[pre.len() as int] == letter(n - 1));
            }
            if begins_with(k, pre) && k.len() > pre.len() && k[pre.len() as int] as int == n - 1 {
                lemma_code(k[pre.len() as int], letter(n - 1));
                assert(k.take(longer.len() as int) =~= k.take(pre.len() as int).push(
                    k[pre.len() as int],
                ));
            }
            if k.len() > pre.len() {
                lemma_code(k[pre.len() as int], letter(n - 1));
            }
        } else {
            if k.len() > pre.len() {
                lemma_code(k[pre.len() as int], k[pre.len() as int]);
            }
        }
    } else {
        if k.len() > pre.len() {
            lemma_code(k[pre.len() as int], k[pre.len() as int]);
        }
    }
}

/// `a` stands before `b` in the order of the character codes: the two
/// agree up to a position at which `a` ends and `b` goes on, or at which
/// `a` has the character with the lesser code.
pub open spec fn precedes(a: Seq<char>, b: Seq<char>) -> bool {
    exists|i: int|
        #![trigger a.take(i)]
        0 <= i <= a.len() && i < b.len() && a.take(i) == b.take(i) && (i < a.len() ==> (a[i] as int)
            < (b[i] as int))
}

/// Each string of `q` stands before those that follow it.
pub open spec fn ascending(q: Seq<Seq<char>>) -> bool {
    forall|i: int, j: int| #![trigger q[i], q[j]] 0 <= i < j < q.len() ==> precedes(q[i], q[j])
}

/// The listing of a tree is in the order of the character codes.
proof fn lemma_listing_ascending<T>(t: Link<T>, pre: Seq<char>)
    requires
        shaped(t),
    ensures
        ascending(listing(t, pre)),
    decreases t,
{
    match t {
        None => {},
        Some(node) => {
            let head: Seq<Seq<char>> = if node.val is Some {
                seq![pre]
            } else {
                Seq::empty()
            };
            let tail = listing_upto(node.next@, pre, node.next@.len() as int);
            let all = listing(t, pre);
            assert(all == head + tail);
            lemma_upto_ascending(node.next@, pre, R as int);
            assert forall|i: int, j: int|
                #![trigger all[i], all[j]]
                0 <= i < j < all.len() implies precedes(all[i], all[j]) by {
                if i < head.len() {
                    let y = tail[j - head.len()];
                    assert(all[i] == pre);
                    assert(all[j] == y);
                    assert(tail.contains(y));
                    lemma_upto(node.next@, pre, R as int, y);
                    let p = pre.len() as int;
                    assert(pre.take(p) =~= pre);
                    assert(pre.take(p) == y.take(p));
                } else {
                    assert(all[i] == tail[i - head.len()]);
                    assert(all[j] == tail[j - head.len()]);
                }
            }
        },
    }
}

proof fn lemma_upto_ascending<T>(links: Seq<Link<T>>, pre: Seq<char>, n: int)
    requires
        links.len() == R,
        shaped_upto(links, R as int),
        0 <= n <= R,
    ensures
        ascending(listing_upto(links, pre, n)),
    decreases links, n,
{
    if n > 0 {
        lemma_upto_ascending(links, pre, n - 1);
        if n - 1 < 128 {
            let longer = pre.push(letter(n - 1));
            let a = listing_upto(links, pre, n - 1);
            let b = listing(links[n - 1], longer);
            let all = listing_upto(links, pre, n);
            assert(all == a + b);
            lemma_shaped_member(links, R as int, n - 1);
            lemma_listing_ascending(links[n - 1], longer);
            assert forall|i: int, j: int|
                #![trigger all[i], all[j]]
                0 <= i < j < all.len() implies precedes(all[i], all[j]) by {
                if j < a.len() {
                    assert(all[i] == a[i] && all[j] == a[j]);
                } else if i >= a.len() {
                    assert(all[i] == b[i - a.len()] && all[j] == b[j - a.len()]);
                } else {
                    let x = a[i];
                    let y = b[j - a.len()];
                    assert(all[i] == x && all[j] == y);
                    assert(a.contains(x));
                    assert(b.contains(y));
                    lemma_upto(links, pre, n - 1, x);
                    lemma_listing(links[n - 1], longer, y);
                    let p = pre.len() as int;
                    assert(y.take(p) =~= y.take(longer.len() as int).take(p));
                    assert(longer.take(p) =~= pre);
                    assert(y[p] == y.take(longer.len() as int)[p]);
                    assert(y[p] == letter(n - 1));
                    assert(letter(n - 1) as int == n - 1);
                    assert(x.take(p) == y.take(p));
                }
            }
        }
    }
}

/// No string stands before itself.
pub proof fn lemma_precedes_itself_not(a: Seq<char>)
    ensures
        !precedes(a, a),
{
}

/// The strings of `q` as sequences of characters.
pub open spec fn texts(q: Seq<String>) -> Seq<Seq<char>> {
    Seq::new(q.len(), |i: int| q[i]@)
}

/// Calls `push` of the standard string, which appends one character.
#[verifier::external_body]
fn append(s: &mut String, c: char)
    ensures
        final(s)@ == old(s)@.push(c),
{
    s.push(c)
}

/// A node without a value and without children.
fn new_node<T>() -> (t: Link<T>)
    ensures
        t is Some,
        shaped(t),
        t.unwrap().val is None,
        forall|c: int| 0 <= c < R ==> (#[trigger] t.unwrap().next@[c]) is None,
{
    let mut this = Box::new(Node { val: None, next: Vec::with_capacity(R) });
    let mut i: usize = 0;
    while i < R
        invariant
            i <= R,
            this.val is None,
            this.next@.len() == i,
            forall|c: int| 0 <= c < i ==> (#[trigger] this.next@[c]) is None,
        decreases R - i,
    {
        this.next.push(None);
        i += 1;
    }
    proof {
        assert forall|j: int| 0 <= j < R implies shaped(#[trigger] this.next@[j]) by {}
        lemma_shaped_all(this.next@, R as int);
    }
    Some(this)
}

/// The node that the characters of `key` from position `d` on lead to.
fn get<'a, T>(t: &'a Link<T>, key: &str, d: usize) -> (r: &'a Link<T>)
    requires
        shaped(*t),
        d <= key@.len(),
        narrow(key@),
    ensures
        *r == descend(*t, key@.skip(d as int)),
        shaped(*r),
    decreases key@.len() - d,
{
    match t {
        None => t,
        Some(boxed_node) => {
            if d == key.unicode_len() {
                t
            } else {
                let c = key.get_char(d) as u32 as usize;
                proof {
                    let s = key@.skip(d as int);
                    assert(s[0] == key@[d as int]);
                    lemma_code(s[0], s[0]);
                    assert(s.drop_first() =~= key@.skip(d + 1));
                    lemma_shaped_member(boxed_node.next@, R as int, c as int);
                }
                get(&boxed_node.next[c], key, d + 1)
            }
        },
    }
}

/// Stores `val` at the node that the characters of `key` from position `d`
/// on lead to, and makes the nodes on the way that are missing.
fn put<T>(t: Link<T>, key: &str, val: T, d: usize) -> (r: Link<T>)
    requires
        shaped(t),
        d <= key@.len(),
        narrow(key@),
    ensures
        r is Some,
        shaped(r),
        forall|k: Seq<char>| #[trigger]
            find(r, k) == if k == key@.skip(d as int) {
                Some(val)
            } else {
                find(t, k)
            },
    decreases key@.len() - d,
{
    let mut x = match t {
        Some(boxed_node) => boxed_node,
        None => new_node().unwrap(),
    };
    let ghost x0 = *x;
    let ghost s = key@.skip(d as int);
    proof {
        reveal_with_fuel(descend, 2);
        assert forall|k: Seq<char>| #[trigger] find(Some(Box::new(x0)), k) == find(t, k) by {
            if t is None && k.len() > 0 && (k[0] as int) < R {
                lemma_code(k[0], k[0]);
                assert(x0.next@[k[0] as int] is None);
            }
        }
    }
    if d == key.unicode_len() {
        x.val = Some(val);
        proof {
            assert(s.len() == 0);
            assert forall|k: Seq<char>| #[trigger]
                find(Some(x), k) == if k == s {
                    Some(val)
                } else {
                    find(t, k)
                } by {
                assert(find(Some(Box::new(x0)), k) == find(t, k));
                if k.len() == 0 {
                    assert(k =~= s);
                }
            }
        }
    } else {
        let c = key.get_char(d) as u32 as usize;
        proof {
            assert(s[0] == key@[d as int]);
            lemma_code(s[0], s[0]);
            assert(s.drop_first() =~= key@.skip(d + 1));
            lemma_shaped_member(x.next@, R as int, c as int);
        }
        let mut child: Link<T> = None;
        x.next.set_and_swap(c, &mut child);
        let ghost old_child = child;
        let child = put(child, key, val, d + 1);
        x.next.set(c, child);
        proof {
            assert forall|j: int| 0 <= j < R implies shaped(#[trigger] x.next@[j]) by {
                if j != c {
                    assert(x.next@[j] == x0.next@[j]);
                    lemma_shaped_member(x0.next@, R as int, j);
                }
            }
            lemma_shaped_all(x.next@, R as int);
            assert forall|k: Seq<char>| #[trigger]
                find(Some(x), k) == if k == s {
                    Some(val)
                } else {
                    find(t, k)
                } by {
                assert(find(Some(Box::new(x0)), k) == find(t, k));
                if k.len() > 0 && (k[0] as int) < R {
                    lemma_code(k[0], s[0]);
                    assert(s[0] as int == c);
                    if k[0] as int == c {
                        assert(k[0] == s[0]);
                        assert(find(child, k.drop_first()) == if k.drop_first() == key@.skip(
                            d + 1,
                        ) {
                            Some(val)
                        } else {
                            find(old_child, k.drop_first())
                        });
                        if k.drop_first() == s.drop_first() {
                            assert(k.len() == s.len());
                            assert forall|i: int| 0 <= i < k.len() implies k[i] == s[i] by {
                                if i > 0 {
                                    assert(k[i] == k.drop_first()[i - 1]);
                                    assert(s[i] == s.drop_first()[i - 1]);
                                }
                            }
                            assert(k =~= s);
                        }
                    } else {
                        assert(x.next@[k[0] as int] == x0.next@[k[0] as int]);
                    }
                }
            }
        }
    }
    Some(x)
}

/// Appends to `q` the keys below `node` that consist of characters with
/// codes below 128, each behind `pre`.
fn collect<T>(node: &Link<T>, pre: String, q: &mut Vec<String>)
    requires
        shaped(*node),
    ensures
        texts(final(q)@) == texts(old(q)@) + listing(*node, pre@),
    decreases count(*node),
{
    let boxed_node = match node {
        Some(boxed_node) => boxed_node,
        None => {
            proof {
                assert(texts(q@) =~= texts(q@) + listing(*node, pre@));
            }
            return ;
        },
    };
    let ghost q0 = texts(q@);
    let ghost base = pre@;
    if boxed_node.val.is_some() {
        q.push(pre.clone());
    }
    let ghost head: Seq<Seq<char>> = if boxed_node.val is Some {
        seq![base]
    } else {
        Seq::empty()
    };
    proof {
        assert(texts(q@) =~= q0 + head + listing_upto(boxed_node.next@, base, 0));
    }
    let mut c: usize = 0;
    while c < R
        invariant
            c <= R,
            *node == Some(*boxed_node),
            shaped(*node),
            base == pre@,
            texts(q@) == q0 + head + listing_upto(boxed_node.next@, base, c as int),
        decreases R - c,
    {
        if c < 128 {
            let mut longer = pre.clone();
            append(&mut longer, (c as u8) as char);
            proof {
                lemma_count_member(boxed_node.next@, R as int, c as int);
                lemma_shaped_member(boxed_node.next@, R as int, c as int);
                assert(longer@ == base.push(letter(c as int)));
            }
            let ghost before = texts(q@);
            collect(&boxed_node.next[c], longer, q);
            proof {
                assert(texts(q@) =~= q0 + head + listing_upto(boxed_node.next@, base, c + 1));
            }
        }
        c += 1;
    }
    proof {
        assert(q0 + head + listing_upto(boxed_node.next@, base, R as int) =~= q0 + listing(
            *node,
            base,
        ));
    }
}

/// A symbol table with strings for keys.
#[derive(Debug)]
pub struct TrieST<T> {
    root: Link<T>,
}

impl<T> View for TrieST<T> {
    type V = Map<Seq<char>, T>;

    /// The values under their keys.
    closed spec fn view(&self) -> Map<Seq<char>, T> {
        Map::new(|k: Seq<char>| find(self.root, k) is Some, |k: Seq<char>| find(self.root, k).unwrap())
    }
}

impl<T> TrieST<T> {
    /// Every node has a child link for each character code.
    pub closed spec fn wf(&self) -> bool {
        shaped(self.root)
    }

    /// The keys that `keys` lists, in its order.
    pub closed spec fn listed(&self) -> Seq<Seq<char>> {
        listing(self.root, Seq::empty())
    }

    /// `keys` lists the keys of the table that consist of characters with
    /// codes below 128, and nothing else.
    pub proof fn lemma_listed(&self, k: Seq<char>)
        requires
            self.wf(),
        ensures
            self.listed().contains(k) <==> self@.contains_key(k) && plain(k),
    {
        lemma_listing(self.root, Seq::empty(), k);
        assert(k.skip(0) =~= k);
        assert(k.take(0) =~= Seq::<char>::empty());
    }

    /// `keys` lists the keys in the order of the character codes, each of
    /// them once.
    pub proof fn lemma_listed_ascending(&self)
        requires
            self.wf(),
        ensures
            ascending(self.listed()),
            self.listed().no_duplicates(),
    {
        lemma_listing_ascending(self.root, Seq::empty());
        let q = self.listed();
        assert forall|i: int, j: int| 0 <= i < q.len() && 0 <= j < q.len() && i != j implies q[i]
            != q[j] by {
            lemma_precedes_itself_not(q[i]);
            if i < j {
                assert(precedes(q[i], q[j]));
            } else {
                assert(precedes(q[j], q[i]));
            }
        }
    }

    /// An empty table.
    pub fn new() -> (t: Self)
        ensures
            t.wf(),
            t@ == Map::<Seq<char>, T>::empty(),
    {
        let t = TrieST { root: None };
        proof {
            assert(t@ =~= Map::<Seq<char>, T>::empty());
        }
        t
    }

    /// The value stored under `key`.
    pub fn get(&self, key: &str) -> (r: &Option<T>)
        requires
            self.wf(),
            narrow(key@),
        ensures
            match *r {
                Some(v) => self@.contains_key(key@) && self@[key@] == v,
                None => !self@.contains_key(key@),
            },
    {
        proof {
            assert(key@.skip(0) =~= key@);
        }
        match get(&self.root, key, 0) {
            Some(boxed_node) => &boxed_node.val,
            None => &None,
        }
    }

    /// Stores `val` under `key`, in place of the value that was there if
    /// there was one.
    pub fn put(&mut self, key: &str, val: T)
        requires
            old(self).wf(),
            narrow(key@),
        ensures
            final(self).wf(),
            final(self)@ == old(self)@.insert(key@, val),
    {
        proof {
            assert(key@.skip(0) =~= key@);
        }
        let root = self.root.take();
        self.root = put(root, key, val, 0);
        proof {
            assert(self@ =~= old(self)@.insert(key@, val));
        }
    }

    /// The keys that consist of characters with codes below 128, each of
    /// them once, in the order of the character codes.
    pub fn keys(&self) -> (keys: Vec<String>)
        requires
            self.wf(),
        ensures
            texts(keys@) == self.listed(),
            forall|k: Seq<char>| #[trigger]
                texts(keys@).contains(k) <==> self@.contains_key(k) && plain(k),
            ascending(texts(keys@)),
            texts(keys@).no_duplicates(),
    {
        let keys = self.keys_with_prefix(String::new());
        proof {
            self.lemma_listed_ascending();
            assert forall|k: Seq<char>| #[trigger]
                texts(keys@).contains(k) <==> self@.contains_key(k) && plain(k) by {
                self.lemma_listed(k);
            }
        }
        keys
    }

    /// The keys that begin with `pre` and go on with characters with codes
    /// below 128.
    fn keys_with_prefix(&self, pre: String) -> (keys: Vec<String>)
        requires
            self.wf(),
            narrow(pre@),
        ensures
            texts(keys@) == listing(descend(self.root, pre@), pre@),
    {
        let mut q: Vec<String> = Vec::new();
        proof {
            assert(pre@.skip(0) =~= pre@);
        }
        let ghost pre_text = pre@;
        collect(get(&self.root, pre.as_str(), 0), pre, &mut q);
        proof {
            assert(texts(q@) =~= listing(descend(self.root, pre_text), pre_text));
        }
        q
    }
}

} // verus!
