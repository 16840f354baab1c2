//! An inverted index over a list of pages: for each word, the pages in which
//! it occurs.

use crate::string_map::StringMap;
use crate::words::{chars_of_all, split_words, whitespace_words};
use vstd::prelude::*;

verus! {

pub struct InvertedWebPages {
    pages: Vec<String>,
    page_map: StringMap<Vec<usize>>,
}

/// `page`, once for each time that `w` occurs among `words`.
pub open spec fn occurrences(words: Seq<Seq<char>>, w: Seq<char>, page: usize) -> Seq<usize>
    decreases words.len(),
{
    if words.len() == 0 {
        Seq::empty()
    } else {
        occurrences(words.drop_last(), w, page) + if words.last() == w {
            seq![page]
        } else {
            Seq::empty()
        }
    }
}

/// The numbers of those of the first `n` pages in which the word `w`
/// occurs, in ascending order, each as often as the word occurs in the page.
pub open spec fn postings(pages: Seq<Seq<char>>, w: Seq<char>, n: nat) -> Seq<usize>
    decreases n,
{
    if n == 0 {
        Seq::empty()
    } else {
        postings(pages, w, (n - 1) as nat) + occurrences(
            whitespace_words(pages[n - 1]),
            w,
            (n - 1) as usize,
        )
    }
}

/// What an index records for the word `w`: a list of page numbers, empty
/// if it has no entry for the word.
pub open spec fn recorded(index: Map<Seq<char>, Vec<usize>>, w: Seq<char>) -> Seq<usize> {
    if index.contains_key(w) {
        index[w]@
    } else {
        Seq::empty()
    }
}

/// The walk through two lists that finds their common elements: equal
/// heads are common and both lists move on; otherwise the list with the
/// smaller head moves on.
pub open spec fn common(a: Seq<usize>, b: Seq<usize>) -> Seq<usize>
    decreases a.len() + b.len(),
{
    if a.len() == 0 || b.len() == 0 {
        Seq::empty()
    } else if a[0] == b[0] {
        seq![a[0]] + common(a.drop_first(), b.drop_first())
    } else if a[0] < b[0] {
        common(a.drop_first(), b)
    } else {
        common(a, b.drop_first())
    }
}

/// The list is in ascending order, equal neighbours allowed.
pub open spec fn ascending(s: Seq<usize>) -> bool {
    forall|i: int, j: int| 0 <= i <= j < s.len() ==> s[i] <= s[j]
}

/// For two lists in ascending order, the walk finds exactly the numbers
/// that occur in both, in ascending order.
pub proof fn lemma_common_of_ascending(a: Seq<usize>, b: Seq<usize>)
    requires
        ascending(a),
        ascending(b),
    ensures
        forall|x: usize| common(a, b).contains(x) <==> a.contains(x) && b.contains(x),
        ascending(common(a, b)),
        forall|x: usize|
            common(a, b).contains(x) ==> (a.len() > 0 && a[0] <= x) && (b.len() > 0 && b[0] <= x),
    decreases a.len() + b.len(),
{
    let c = common(a, b);
    if a.len() == 0 || b.len() == 0 {
        assert forall|x: usize| !c.contains(x) by {}
        assert forall|x: usize| !(a.contains(x) && b.contains(x)) by {}
    } else {
        let a1 = a.drop_first();
        let b1 = b.drop_first();
        assert(ascending(a1)) by {
            assert forall|i: int, j: int| 0 <= i <= j < a1.len() implies a1[i] <= a1[j] by {
                assert(a1[i] == a[i + 1] && a1[j] == a[j + 1]);
            }
        }
        assert(ascending(b1)) by {
            assert forall|i: int, j: int| 0 <= i <= j < b1.len() implies b1[i] <= b1[j] by {
                assert(b1[i] == b[i + 1] && b1[j] == b[j + 1]);
            }
        }
        assert forall|x: usize| a.contains(x) <==> (x == a[0] || a1.contains(x)) by {
            if a.contains(x) {
                let i = choose|i: int| 0 <= i < a.len() && a[i] == x;
                if i > 0 {
                    assert(a1[i - 1] == x);
                }
            }
            if a1.contains(x) {
                let i = choose|i: int| 0 <= i < a1.len() && a1[i] == x;
                assert(a[i + 1] == x);
            }
            if x == a[0] {
                assert(a[0] == x);
            }
        }
        assert forall|x: usize| b.contains(x) <==> (x == b[0] || b1.contains(x)) by {
            if b.contains(x) {
                let i = choose|i: int| 0 <= i < b.len() && b[i] == x;
                if i > 0 {
                    assert(b1[i - 1] == x);
                }
            }
            if b1.contains(x) {
                let i = choose|i: int| 0 <= i < b1.len() && b1[i] == x;
                assert(b[i + 1] == x);
            }
            if x == b[0] {
                assert(b[0] == x);
            }
        }
        assert forall|x: usize| a1.contains(x) implies a[0] <= x by {
            let i = choose|i: int| 0 <= i < a1.len() && a1[i] == x;
            assert(a[i + 1] == x);
        }
        assert forall|x: usize| b1.contains(x) implies b[0] <= x by {
            let i = choose|i: int| 0 <= i < b1.len() && b1[i] == x;
            assert(b[i + 1] == x);
        }
        if a[0] == b[0] {
            lemma_common_of_ascending(a1, b1);
            let r = common(a1, b1);
            assert(c == seq![a[0]] + r);
            assert forall|x: usize| c.contains(x) <==> (x == a[0] || r.contains(x)) by {
                if c.contains(x) {
                    let i = choose|i: int| 0 <= i < c.len() && c[i] == x;
                    if i > 0 {
                        assert(r[i - 1] == x);
                    }
                }
                if r.contains(x) {
                    let i = choose|i: int| 0 <= i < r.len() && r[i] == x;
                    assert(c[i + 1] == x);
                }
                if x == a[0] {
                    assert(c[0] == x);
                }
            }
            assert forall|i: int, j: int| 0 <= i <= j < c.len() implies c[i] <= c[j] by {
                if i > 0 {
                    assert(c[i] == r[i - 1] && c[j] == r[j - 1]);
                } else if j > 0 {
                    assert(c[j] == r[j - 1]);
                    assert(r.contains(r[j - 1]));
                }
            }
        } else if a[0] < b[0] {
            lemma_common_of_ascending(a1, b);
        } else {
            lemma_common_of_ascending(a, b1);
        }
    }
}

impl InvertedWebPages {
    /// The index is well formed.
    pub closed spec fn wf(&self) -> bool {
        self.page_map.wf()
    }

    /// The text of each page.
    pub closed spec fn pages(&self) -> Seq<Seq<char>> {
        chars_of_all(self.pages@)
    }

    /// The index: for each word that has an entry, its list of page numbers.
    pub closed spec fn index(&self) -> Map<Seq<char>, Vec<usize>> {
        self.page_map@
    }

    /// The pages, with an index that has no entries yet.
    pub fn new(pages: &Vec<String>) -> (made: Self)
        ensures
            made.wf(),
            made.pages() == chars_of_all(pages@),
            made.index() == Map::<Seq<char>, Vec<usize>>::empty(),
    {
        let mut copy: Vec<String> = Vec::new();
        let mut i: usize = 0;
        while i < pages.len()
            invariant
                i <= pages@.len(),
                copy@.len() == i,
                forall|j: int| 0 <= j < i ==> (#[trigger] copy@[j])@ == pages@[j]@,
            decreases pages@.len() - i,
        {
            copy.push(pages[i].clone());
            i += 1;
        }
        proof {
            assert(chars_of_all(copy@) =~= chars_of_all(pages@));
        }
        InvertedWebPages { pages: copy, page_map: StringMap::new() }
    }

    /// Adds the page number `num` to the list of each of the words, once for
    /// each time the word occurs among them. A word without an entry gets one.
    pub fn index_words(&mut self, words: &Vec<String>, num: usize)
        requires
            old(self).wf(),
        ensures
            final(self).wf(),
            final(self).pages() == old(self).pages(),
            forall|w: Seq<char>|
                #[trigger] recorded(final(self).index(), w) == recorded(old(self).index(), w)
                    + occurrences(chars_of_all(words@), w, num),
            forall|w: Seq<char>|
                #[trigger] final(self).index().contains_key(w) <==> old(self).index().contains_key(
                    w,
                ) || occurrences(chars_of_all(words@), w, num).len() > 0,
    {
        let ghost heard = chars_of_all(words@);
        let ghost index1 = self.page_map@;
        let mut j: usize = 0;
        proof {
            assert forall|w: Seq<char>| #[trigger]
                recorded(self.page_map@, w) == recorded(index1, w) + occurrences(
                    heard.take(0),
                    w,
                    num,
                ) by {
                assert(recorded(index1, w) + Seq::<usize>::empty() =~= recorded(index1, w));
            }
        }
        while j < words.len()
            invariant
                self.page_map.wf(),
                self.pages == old(self).pages,
                heard == chars_of_all(words@),
                j <= words@.len(),
                forall|w: Seq<char>| #[trigger]
                    recorded(self.page_map@, w) == recorded(index1, w) + occurrences(
                        heard.take(j as int),
                        w,
                        num,
                    ),
                forall|w: Seq<char>| #[trigger]
                    self.page_map@.contains_key(w) <==> index1.contains_key(w) || occurrences(
                        heard.take(j as int),
                        w,
                        num,
                    ).len() > 0,
            decreases words@.len() - j,
        {
            let word = words[j].clone();
            let ghost index2 = self.page_map@;
            let mut list = match self.page_map.remove(word.as_str()) {
                Some(list) => list,
                None => Vec::new(),
            };
            proof {
                assert(list@ =~= recorded(index2, word@));
            }
            list.push(num);
            self.page_map.insert(word, list);
            proof {
                let here = heard[j as int];
                assert(here == word@);
                assert(heard.take(j + 1).drop_last() =~= heard.take(j as int));
                assert(heard.take(j + 1).last() == here);
                assert forall|w: Seq<char>| #[trigger]
                    recorded(self.page_map@, w) == recorded(index1, w) + occurrences(
                        heard.take(j + 1),
                        w,
                        num,
                    ) by {
                    let before = occurrences(heard.take(j as int), w, num);
                    assert(recorded(index2, w) == recorded(index1, w) + before);
                    if w == here {
                        assert(recorded(self.page_map@, w) =~= recorded(index2, w).push(num));
                        assert((recorded(index1, w) + before).push(num) =~= recorded(index1, w) + (
                        before + seq![num]));
                    } else {
                        assert(recorded(self.page_map@, w) == recorded(index2, w));
                        assert(before + Seq::<usize>::empty() =~= before);
                    }
                }
                assert forall|w: Seq<char>| #[trigger]
                    self.page_map@.contains_key(w) <==> index1.contains_key(w) || occurrences(
                        heard.take(j + 1),
                        w,
                        num,
                    ).len() > 0 by {
                    assert(index2.contains_key(w) <==> index1.contains_key(w) || occurrences(
                        heard.take(j as int),
                        w,
                        num,
                    ).len() > 0);
                }
            }
            j += 1;
        }
        proof {
            assert(heard.take(words@.len() as int) =~= heard);
        }
    }

    /// Adds to the index, for every page in order and every word of the
    /// page in order, the number of the page to the list of the word.
    pub fn populate_index(&mut self)
        requires
            old(self).wf(),
        ensures
            final(self).wf(),
            final(self).pages() == old(self).pages(),
            forall|w: Seq<char>|
                #[trigger] recorded(final(self).index(), w) == recorded(old(self).index(), w)
                    + postings(old(self).pages(), w, old(self).pages().len()),
            forall|w: Seq<char>|
                #[trigger] final(self).index().contains_key(w) <==> old(self).index().contains_key(
                    w,
                ) || postings(old(self).pages(), w, old(self).pages().len()).len() > 0,
    {
        let ghost index0 = self.index();
        let ghost texts = chars_of_all(self.pages@);
        let mut num: usize = 0;
        proof {
            assert forall|w: Seq<char>| #[trigger]
                recorded(self.index(), w) == recorded(index0, w) + postings(texts, w, 0) by {
                assert(recorded(index0, w) + Seq::<usize>::empty() =~= recorded(index0, w));
            }
        }
        while num < self.pages.len()
            invariant
                self.page_map.wf(),
                texts == chars_of_all(self.pages@),
                texts == old(self).pages(),
                num <= self.pages@.len(),
                forall|w: Seq<char>| #[trigger]
                    recorded(self.index(), w) == recorded(index0, w) + postings(
                        texts,
                        w,
                        num as nat,
                    ),
                forall|w: Seq<char>| #[trigger]
                    self.index().contains_key(w) <==> index0.contains_key(w) || postings(
                        texts,
                        w,
                        num as nat,
                    ).len() > 0,
            decreases self.pages@.len() - num,
        {
            let words = split_words(self.pages[num].as_str());
            let ghost heard = chars_of_all(words@);
            let ghost index1 = self.index();
            proof {
                assert(heard == whitespace_words(texts[num as int]));
            }
            self.index_words(&words, num);
            proof {
                assert(self.pages@.len() == texts.len());
                assert forall|w: Seq<char>| #[trigger]
                    recorded(self.index(), w) == recorded(index0, w) + postings(
                        texts,
                        w,
                        (num + 1) as nat,
                    ) by {
                    let sofar = postings(texts, w, num as nat);
                    let here = occurrences(heard, w, num);
                    assert(recorded(index1, w) == recorded(index0, w) + sofar);
                    assert(recorded(self.index(), w) == recorded(index1, w) + here);
                    assert((recorded(index0, w) + sofar) + here =~= recorded(index0, w) + (sofar
                        + here));
                }
                assert forall|w: Seq<char>| #[trigger]
                    self.index().contains_key(w) <==> index0.contains_key(w) || postings(
                        texts,
                        w,
                        (num + 1) as nat,
                    ).len() > 0 by {
                    assert(index1.contains_key(w) <==> index0.contains_key(w) || postings(
                        texts,
                        w,
                        num as nat,
                    ).len() > 0);
                }
            }
            num += 1;
        }
    }

    /// The list of page numbers that the index holds for the word, if it
    /// has an entry for it.
    pub fn pages_with(&self, query: &str) -> (found: Option<&Vec<usize>>)
        requires
            self.wf(),
        ensures
            match found {
                Some(list) => self.index().contains_key(query@) && *list == self.index()[query@],
                None => !self.index().contains_key(query@),
            },
    {
        self.page_map.get(query)
    }

    /// The text of page `idx`.
    pub fn page(&self, idx: usize) -> (text: &String)
        requires
            idx < self.pages().len(),
        ensures
            text@ == self.pages()[idx as int],
    {
        &self.pages[idx]
    }

    /// The numbers of the pages.
    pub fn page_count(&self) -> (n: usize)
        ensures
            n == self.pages().len(),
    {
        self.pages.len()
    }

    /// The numbers that the two lists have in common, found by one walk
    /// through both. For lists in ascending order these are all the numbers
    /// that occur in both.
    pub fn find_common_elements(list_a: &Vec<usize>, list_b: &Vec<usize>) -> (res: Vec<usize>)
        ensures
            res@ == common(list_a@, list_b@),
            ascending(list_a@) && ascending(list_b@) ==> ascending(res@) && forall|x: usize|
                res@.contains(x) <==> list_a@.contains(x) && list_b@.contains(x),
    {
        let mut i: usize = 0;
        let mut j: usize = 0;
        let mut res: Vec<usize> = Vec::new();
        proof {
            assert(list_a@.subrange(0, list_a@.len() as int) =~= list_a@);
            assert(list_b@.subrange(0, list_b@.len() as int) =~= list_b@);
            if ascending(list_a@) && ascending(list_b@) {
                lemma_common_of_ascending(list_a@, list_b@);
            }
        }
        while i < list_a.len() && j < list_b.len()
            invariant
                i <= list_a@.len(),
                j <= list_b@.len(),
                res@ + common(
                    list_a@.subrange(i as int, list_a@.len() as int),
                    list_b@.subrange(j as int, list_b@.len() as int),
                ) == common(list_a@, list_b@),
            decreases list_a@.len() - i + list_b@.len() - j,
        {
            let ghost ra = list_a@.subrange(i as int, list_a@.len() as int);
            let ghost rb = list_b@.subrange(j as int, list_b@.len() as int);
            let ghost found = res@;
            proof {
                assert(ra.drop_first() =~= list_a@.subrange(i + 1, list_a@.len() as int));
                assert(rb.drop_first() =~= list_b@.subrange(j + 1, list_b@.len() as int));
                assert(ra[0] == list_a@[i as int] && rb[0] == list_b@[j as int]);
            }
            if list_a[i] == list_b[j] {
                res.push(list_a[i]);
                i += 1;
                j += 1;
                proof {
                    let rest = common(ra.drop_first(), rb.drop_first());
                    assert(res@ + rest =~= found + (seq![ra[0]] + rest));
                }
            } else if list_a[i] < list_b[j] {
                i += 1;
            } else {
                j += 1;
            }
        }
        proof {
            let ra = list_a@.subrange(i as int, list_a@.len() as int);
            let rb = list_b@.subrange(j as int, list_b@.len() as int);
            assert(common(ra, rb) =~= Seq::<usize>::empty());
            assert(res@ + Seq::<usize>::empty() =~= res@);
        }
        res
    }
}

} // verus!
