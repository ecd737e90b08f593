use crate::element::Element;
use crate::item::Item;
use vstd::prelude::*;
use vstd::string::*;

verus! {

/// The items that a sequence of references points to.
pub open spec fn items_of(refs: Seq<&Item>) -> Seq<Item> {
    Seq::new(refs.len(), |i: int| *refs[i])
}

/// The elements that a sequence of references points to.
pub open spec fn elements_of(refs: Seq<&Element>) -> Seq<Element> {
    Seq::new(refs.len(), |i: int| *refs[i])
}

/// The elements among `items`, in their order.
pub open spec fn child_elements(items: Seq<Item>) -> Seq<Element>
    decreases items.len(),
{
    if items.len() == 0 {
        Seq::empty()
    } else {
        match items.last() {
            Item::Element(e) => child_elements(items.drop_last()).push(e),
            _ => child_elements(items.drop_last()),
        }
    }
}

/// The text inside an item: of a text item its payload, of an element the
/// text inside its children, of any other item nothing.
pub open spec fn text_in(item: Item) -> Seq<char>
    decreases item,
{
    match item {
        Item::Text(t) => t@,
        Item::Element(e) => text_within(e.children@),
        _ => Seq::empty(),
    }
}

/// The text inside items, one after the other.
pub open spec fn text_within(items: Seq<Item>) -> Seq<char>
    decreases items,
{
    if items.len() == 0 {
        Seq::empty()
    } else {
        text_within(items.drop_last()) + text_in(items.last())
    }
}

/// The items `depth` levels below an element: at depth 1 its children, at a
/// greater depth what lies one level less deep below the elements among its
/// children.
pub open spec fn descendants_at(e: Element, depth: nat) -> Seq<Item>
    decreases e,
{
    if depth <= 1 {
        e.children@
    } else {
        descendants_below(e.children@, (depth - 1) as nat)
    }
}

/// What lies `depth` levels below the elements among `items`, in the order of
/// the items; the other items give nothing.
pub open spec fn descendants_below(items: Seq<Item>, depth: nat) -> Seq<Item>
    decreases items,
{
    if items.len() == 0 {
        Seq::empty()
    } else {
        descendants_below(items.drop_last(), depth) + match items.last() {
            Item::Element(e) => descendants_at(e, depth),
            _ => Seq::empty(),
        }
    }
}

/// The items among `items` that `keep` holds of, in their order.
pub open spec fn matching(items: Seq<Item>, keep: spec_fn(Item) -> bool) -> Seq<Item>
    decreases items.len(),
{
    if items.len() == 0 {
        Seq::empty()
    } else if keep(items.last()) {
        matching(items.drop_last(), keep).push(items.last())
    } else {
        matching(items.drop_last(), keep)
    }
}

/// The descendants of an element that `keep` holds of: first those among
/// its children, then, for each child that is an element, in the order of
/// the children, those found in that child.
pub open spec fn found_in(e: Element, keep: spec_fn(Item) -> bool) -> Seq<Item>
    decreases e,
{
    matching(e.children@, keep) + found_below(e.children@, keep)
}

/// What is found in the elements among `items`, in the order of the items.
pub open spec fn found_below(items: Seq<Item>, keep: spec_fn(Item) -> bool) -> Seq<Item>
    decreases items,
{
    if items.len() == 0 {
        Seq::empty()
    } else {
        found_below(items.drop_last(), keep) + match items.last() {
            Item::Element(e) => found_in(e, keep),
            _ => Seq::empty(),
        }
    }
}

/// Whether `predicate` computes `keep`: whatever it returns on an item is
/// what `keep` says of that item.
pub open spec fn decides<F: Fn(&Item) -> bool>(predicate: &F, keep: spec_fn(Item) -> bool) -> bool {
    forall|item: Item, b: bool| #[trigger] predicate.ensures((&item,), b) ==> b == keep(item)
}

/// The descendants of an element in the order in which a search looks at
/// them: its children, then, for each child that is an element, in the order
/// of the children, the descendants of that child in this order.
pub open spec fn visited(e: Element) -> Seq<Item>
    decreases e,
{
    e.children@ + visited_below(e.children@)
}

/// The descendants of the elements among `items`, each in the order of
/// [`visited`], in the order of the items.
pub open spec fn visited_below(items: Seq<Item>) -> Seq<Item>
    decreases items,
{
    if items.len() == 0 {
        Seq::empty()
    } else {
        visited_below(items.drop_last()) + match items.last() {
            Item::Element(e) => visited(e),
            _ => Seq::empty(),
        }
    }
}

/// The items among `items` whose flag is set, in their order.
pub open spec fn chosen(items: Seq<Item>, flags: Seq<bool>) -> Seq<Item>
    decreases items.len(),
{
    if items.len() == 0 || flags.len() != items.len() {
        Seq::empty()
    } else if flags.last() {
        chosen(items.drop_last(), flags.drop_last()).push(items.last())
    } else {
        chosen(items.drop_last(), flags.drop_last())
    }
}

/// Whether `flags` are answers of `predicate` to `items`, one for each.
pub open spec fn answers<F: Fn(&Item) -> bool>(
    predicate: &F,
    items: Seq<Item>,
    flags: Seq<bool>,
) -> bool {
    &&& flags.len() == items.len()
    &&& forall|i: int|
        0 <= i < items.len() ==> predicate.ensures((&items[i],), #[trigger] flags[i])
}

/// Choosing from two runs of items, one after the other, is choosing from
/// each.
pub proof fn lemma_chosen_concat(
    first: Seq<Item>,
    first_flags: Seq<bool>,
    second: Seq<Item>,
    second_flags: Seq<bool>,
)
    requires
        first.len() == first_flags.len(),
        second.len() == second_flags.len(),
    ensures
        chosen(first + second, first_flags + second_flags) == chosen(first, first_flags) + chosen(
            second,
            second_flags,
        ),
    decreases second.len(),
{
    if second.len() == 0 {
        assert(first + second =~= first);
        assert(first_flags + second_flags =~= first_flags);
        assert(chosen(first, first_flags) + Seq::<Item>::empty() =~= chosen(first, first_flags));
    } else {
        assert((first + second).drop_last() =~= first + second.drop_last());
        assert((first_flags + second_flags).drop_last() =~= first_flags
            + second_flags.drop_last());
        lemma_chosen_concat(first, first_flags, second.drop_last(), second_flags.drop_last());
        let a = chosen(first, first_flags);
        let b = chosen(second.drop_last(), second_flags.drop_last());
        assert((a + b).push(second.last()) =~= a + b.push(second.last()));
    }
}

/// Answers to two runs of items, one after the other, are answers to both.
pub proof fn lemma_answers_concat<F: Fn(&Item) -> bool>(
    predicate: &F,
    first: Seq<Item>,
    first_flags: Seq<bool>,
    second: Seq<Item>,
    second_flags: Seq<bool>,
)
    requires
        answers(predicate, first, first_flags),
        answers(predicate, second, second_flags),
    ensures
        answers(predicate, first + second, first_flags + second_flags),
{
    let items = first + second;
    let flags = first_flags + second_flags;
    assert forall|i: int| 0 <= i < items.len() implies predicate.ensures(
        (&items[i],),
        #[trigger] flags[i],
    ) by {
        if i < first.len() {
            assert(items[i] == first[i]);
            assert(flags[i] == first_flags[i]);
        } else {
            assert(items[i] == second[i - first.len()]);
            assert(flags[i] == second_flags[i - first.len()]);
        }
    }
}

/// The items that a predicate keeps are the items that its answers choose.
pub proof fn lemma_chosen_is_matching<F: Fn(&Item) -> bool>(
    predicate: &F,
    keep: spec_fn(Item) -> bool,
    items: Seq<Item>,
    flags: Seq<bool>,
)
    requires
        decides(predicate, keep),
        answers(predicate, items, flags),
    ensures
        chosen(items, flags) == matching(items, keep),
    decreases items.len(),
{
    if items.len() > 0 {
        assert(predicate.ensures((&items[items.len() - 1],), flags[items.len() - 1]));
        assert forall|i: int| 0 <= i < items.drop_last().len() implies predicate.ensures(
            (&items.drop_last()[i],),
            #[trigger] flags.drop_last()[i],
        ) by {
            assert(flags.drop_last()[i] == flags[i]);
        }
        lemma_chosen_is_matching(predicate, keep, items.drop_last(), flags.drop_last());
    }
}

/// Keeping from two runs of items, one after the other, is keeping from
/// each.
pub proof fn lemma_matching_concat(first: Seq<Item>, second: Seq<Item>, keep: spec_fn(Item) -> bool)
    ensures
        matching(first + second, keep) == matching(first, keep) + matching(second, keep),
    decreases second.len(),
{
    if second.len() == 0 {
        assert(first + second =~= first);
        assert(matching(first, keep) + Seq::<Item>::empty() =~= matching(first, keep));
    } else {
        assert((first + second).drop_last() =~= first + second.drop_last());
        lemma_matching_concat(first, second.drop_last(), keep);
        let a = matching(first, keep);
        let b = matching(second.drop_last(), keep);
        assert((a + b).push(second.last()) =~= a + b.push(second.last()));
    }
}

/// What a search finds in an element is what is kept of the descendants in
/// the order in which the search looks at them.
pub proof fn lemma_found_is_matching_visited(e: Element, keep: spec_fn(Item) -> bool)
    ensures
        found_in(e, keep) == matching(visited(e), keep),
    decreases e,
{
    lemma_found_below_is_matching_visited(e.children@, keep);
    lemma_matching_concat(e.children@, visited_below(e.children@), keep);
}

/// What a search finds below items is what is kept of their descendants in
/// the order in which the search looks at them.
pub proof fn lemma_found_below_is_matching_visited(items: Seq<Item>, keep: spec_fn(Item) -> bool)
    ensures
        found_below(items, keep) == matching(visited_below(items), keep),
    decreases items,
{
    if items.len() > 0 {
        lemma_found_below_is_matching_visited(items.drop_last(), keep);
        let before = visited_below(items.drop_last());
        match items.last() {
            Item::Element(e) => {
                lemma_found_is_matching_visited(e, keep);
                lemma_matching_concat(before, visited(e), keep);
            },
            _ => {
                lemma_matching_concat(before, Seq::empty(), keep);
            },
        }
    }
}

impl Element {
    /// All descendants that the predicate holds of: first the children, then
    /// what is found in each child element, child by child.
    ///
    /// The predicate is asked once of each descendant, in the order of
    /// [`visited`], and the result holds those of which it said yes, in that
    /// order. Where the predicate computes a function `keep` of the item, that
    /// is [`found_in`].
    pub fn find_descendants<F: Fn(&Item) -> bool>(&self, predicate: &F) -> (r: Vec<&Item>)
        requires
            forall|item: Item| #[trigger] predicate.requires((&item,)),
        ensures
            exists|flags: Seq<bool>| #[trigger]
                answers(predicate, visited(*self), flags) && items_of(r@) == chosen(
                    visited(*self),
                    flags,
                ),
            forall|keep: spec_fn(Item) -> bool| #[trigger]
                decides(predicate, keep) ==> items_of(r@) == found_in(*self, keep),
        decreases self,
    {
        let mut result: Vec<&Item> = Vec::new();
        let ghost mut level: Seq<bool> = Seq::empty();
        let mut i: usize = 0;
        while i < self.children.len()
            invariant
                i <= self.children@.len(),
                forall|item: Item| #[trigger] predicate.requires((&item,)),
                answers(predicate, self.children@.take(i as int), level),
                items_of(result@) == chosen(self.children@.take(i as int), level),
            decreases self.children@.len() - i,
        {
            let ghost before = items_of(result@);
            let ghost flags = level;
            let child = &self.children[i];
            let kept = predicate(child);
            if kept {
                result.push(child);
            }
            proof {
                level = flags.push(kept);
                let now = self.children@.take(i + 1);
                assert(now.drop_last() =~= self.children@.take(i as int));
                assert(level.drop_last() =~= flags);
                assert forall|j: int| 0 <= j < now.len() implies predicate.ensures(
                    (&now[j],),
                    #[trigger] level[j],
                ) by {
                    if j < i {
                        assert(now[j] == self.children@.take(i as int)[j]);
                        assert(level[j] == flags[j]);
                    }
                }
                if kept {
                    assert(items_of(result@) =~= before.push(*child));
                }
            }
            i += 1;
        }
        proof {
            assert(self.children@.take(i as int) =~= self.children@);
        }
        let ghost mut deeper: Seq<bool> = Seq::empty();
        let mut i: usize = 0;
        proof {
            assert(chosen(visited_below(self.children@.take(0)), deeper) =~= Seq::<Item>::empty());
            assert(items_of(result@) + Seq::<Item>::empty() =~= items_of(result@));
        }
        while i < self.children.len()
            invariant
                i <= self.children@.len(),
                forall|item: Item| #[trigger] predicate.requires((&item,)),
                answers(predicate, self.children@, level),
                answers(predicate, visited_below(self.children@.take(i as int)), deeper),
                items_of(result@) == chosen(self.children@, level) + chosen(
                    visited_below(self.children@.take(i as int)),
                    deeper,
                ),
            decreases self.children@.len() - i,
        {
            let ghost before = items_of(result@);
            let ghost flags = deeper;
            let ghost below = visited_below(self.children@.take(i as int));
            let ghost more = Seq::<Item>::empty();
            let ghost more_flags = Seq::<bool>::empty();
            let ghost found_items = Seq::<Item>::empty();
            if let Item::Element(element) = &self.children[i] {
                let mut found = element.find_descendants(predicate);
                proof {
                    more = visited(*element);
                    more_flags = choose|f: Seq<bool>| #[trigger]
                        answers(predicate, visited(*element), f) && items_of(found@) == chosen(
                            visited(*element),
                            f,
                        );
                    found_items = items_of(found@);
                }
                result.append(&mut found);
            }
            proof {
                assert(items_of(result@) =~= before + found_items);
                assert(self.children@.take(i + 1).drop_last() =~= self.children@.take(i as int));
                assert(visited_below(self.children@.take(i + 1)) == below + more);
                deeper = flags + more_flags;
                lemma_answers_concat(predicate, below, flags, more, more_flags);
                lemma_chosen_concat(below, flags, more, more_flags);
                let top = chosen(self.children@, level);
                assert((top + chosen(below, flags)) + found_items =~= top + (chosen(below, flags)
                    + found_items));
            }
            i += 1;
        }
        proof {
            assert(self.children@.take(i as int) =~= self.children@);
            let all = level + deeper;
            lemma_answers_concat(
                predicate,
                self.children@,
                level,
                visited_below(self.children@),
                deeper,
            );
            lemma_chosen_concat(self.children@, level, visited_below(self.children@), deeper);
            assert(answers(predicate, visited(*self), all) && items_of(result@) == chosen(
                visited(*self),
                all,
            ));
            assert forall|keep: spec_fn(Item) -> bool| #[trigger]
                decides(predicate, keep) implies items_of(result@) == found_in(*self, keep) by {
                lemma_chosen_is_matching(predicate, keep, visited(*self), all);
                lemma_found_is_matching_visited(*self, keep);
            }
        }
        result
    }

    /// The text of all text items within the element, in document order.
    pub fn get_text_content(&self) -> (r: String)
        ensures
            r@ == text_within(self.children@),
        decreases self,
    {
        let mut content = String::new();
        let mut i: usize = 0;
        while i < self.children.len()
            invariant
                i <= self.children@.len(),
                content@ == text_within(self.children@.take(i as int)),
            decreases self.children@.len() - i,
        {
            proof {
                assert(self.children@.take(i + 1).drop_last() =~= self.children@.take(i as int));
            }
            let ghost before = content@;
            let ghost child = self.children@[i as int];
            assert(self.children@.take(i + 1).last() == child);
            assert(text_within(self.children@.take(i + 1)) == before + text_in(child));
            match &self.children[i] {
                Item::Text(text) => {
                    content.append(text.as_str());
                },
                Item::Element(element) => {
                    content.append(element.get_text_content().as_str());
                },
                _ => {
                    assert(before + Seq::<char>::empty() =~= before);
                },
            }
            i += 1;
        }
        proof {
            assert(self.children@.take(i as int) =~= self.children@);
        }
        content
    }

    /// The children that are elements, in their order.
    pub fn get_child_elements(&self) -> (r: Vec<&Element>)
        ensures
            elements_of(r@) == child_elements(self.children@),
    {
        let mut elements: Vec<&Element> = Vec::new();
        let mut i: usize = 0;
        while i < self.children.len()
            invariant
                i <= self.children@.len(),
                elements_of(elements@) == child_elements(self.children@.take(i as int)),
            decreases self.children@.len() - i,
        {
            proof {
                assert(self.children@.take(i + 1).drop_last() =~= self.children@.take(i as int));
            }
            let ghost before = elements_of(elements@);
            if let Item::Element(element) = &self.children[i] {
                elements.push(element);
                assert(elements_of(elements@) =~= before.push(*element));
            }
            i += 1;
        }
        proof {
            assert(self.children@.take(i as int) =~= self.children@);
        }
        elements
    }

    /// All items `depth` levels below the element; its children are at depth 1.
    pub fn get_decendants_at_depth(&self, depth: u8) -> (r: Vec<&Item>)
        requires
            depth >= 1,
        ensures
            items_of(r@) == descendants_at(*self, depth as nat),
        decreases self,
    {
        let mut result: Vec<&Item> = Vec::new();
        let mut i: usize = 0;
        if depth == 1 {
            while i < self.children.len()
                invariant
                    i <= self.children@.len(),
                    items_of(result@) == self.children@.take(i as int),
                decreases self.children@.len() - i,
            {
                let ghost before = items_of(result@);
                result.push(&self.children[i]);
                assert(items_of(result@) =~= before.push(self.children@[i as int]));
                assert(self.children@.take(i + 1) =~= self.children@.take(i as int).push(
                    self.children@[i as int],
                ));
                i += 1;
            }
            proof {
                assert(self.children@.take(i as int) =~= self.children@);
            }
            return result;
        }
        assert(items_of(result@) =~= Seq::<Item>::empty());
        while i < self.children.len()
            invariant
                i <= self.children@.len(),
                depth > 1,
                items_of(result@) == descendants_below(
                    self.children@.take(i as int),
                    (depth - 1) as nat,
                ),
            decreases self.children@.len() - i,
        {
            let ghost before = items_of(result@);
            let ghost deeper = Seq::<Item>::empty();
            if let Item::Element(element) = &self.children[i] {
                let mut found = element.get_decendants_at_depth(depth - 1);
                proof {
                    deeper = items_of(found@);
                }
                result.append(&mut found);
            }
            proof {
                assert(items_of(result@) =~= before + deeper);
                assert(self.children@.take(i + 1).drop_last() =~= self.children@.take(i as int));
            }
            i += 1;
        }
        proof {
            assert(self.children@.take(i as int) =~= self.children@);
        }
        result
    }
}

} // verus!
