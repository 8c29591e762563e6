//! Style sheets and the list of them (`document.styleSheets`).
use vstd::prelude::*;

use super::css_rule::CssRule;

verus! {

/// A style sheet (`CSSStyleSheet`).
#[allow(non_snake_case)]
#[derive(Debug)]
pub struct CssStyleSheet {
    /// The sheet's type, such as `text/css`.
    pub sheetType: String,
    /// The URL of a linked sheet; `None` for an inline one.
    pub href: Option<String>,
    /// The sheet's title.
    pub title: Option<String>,
    /// Its media query, `all` by default.
    pub media: String,
    /// Whether the sheet is switched off.
    pub disabled: bool,
    /// Its rules, in order (`CSSRuleList`).
    pub cssRules: Vec<CssRule>,
}

impl CssStyleSheet {
    /// Inserts `rule` so that it stands at `index` (`insertRule`).
    #[allow(non_snake_case)]
    pub fn insertRule(&mut self, rule: CssRule, index: usize)
        requires
            index <= old(self).cssRules@.len(),
        ensures
            final(self).cssRules@ == old(self).cssRules@.insert(index as int, rule),
            final(self).sheetType == old(self).sheetType,
            final(self).href == old(self).href,
            final(self).title == old(self).title,
            final(self).media == old(self).media,
            final(self).disabled == old(self).disabled,
    {
        self.cssRules.insert(index, rule);
    }

    /// Removes the rule at `index` (`deleteRule`); an index past the end
    /// changes nothing.
    #[allow(non_snake_case)]
    pub fn deleteRule(&mut self, index: usize)
        ensures
            index < old(self).cssRules@.len() ==> final(self).cssRules@ == old(self).cssRules@.remove(
                index as int,
            ),
            index >= old(self).cssRules@.len() ==> final(self).cssRules@ == old(self).cssRules@,
            final(self).sheetType == old(self).sheetType,
            final(self).href == old(self).href,
            final(self).title == old(self).title,
            final(self).media == old(self).media,
            final(self).disabled == old(self).disabled,
    {
        if index < self.cssRules.len() {
            self.cssRules.remove(index);
        }
    }
}

/// The list of style sheets (`StyleSheetList`).
#[derive(Debug)]
pub struct StyleSheetList {
    sheets: Vec<CssStyleSheet>,
}

/// The sheets of `s` that are not disabled, in order.
pub open spec fn active(s: Seq<CssStyleSheet>) -> Seq<CssStyleSheet> {
    s.filter(|x: CssStyleSheet| !x.disabled)
}

impl View for StyleSheetList {
    type V = Seq<CssStyleSheet>;

    closed spec fn view(&self) -> Seq<CssStyleSheet> {
        self.sheets@
    }
}

impl StyleSheetList {
    /// An empty list.
    pub fn new() -> (r: Self)
        ensures
            r@ == Seq::<CssStyleSheet>::empty(),
    {
        Self { sheets: Vec::new() }
    }

    /// The number of sheets.
    pub fn length(&self) -> (r: usize)
        ensures
            r == self@.len(),
    {
        self.sheets.len()
    }

    /// The sheet at `index`, if there is one.
    pub fn item(&self, index: usize) -> (r: Option<&CssStyleSheet>)
        ensures
            index < self@.len() ==> r == Some(&self@[index as int]),
            index >= self@.len() ==> r is None,
    {
        if index < self.sheets.len() {
            Some(&self.sheets[index])
        } else {
            None
        }
    }

    /// The sheet at `index`, to change in place, if there is one.
    pub fn item_mut(&mut self, index: usize) -> (r: Option<&mut CssStyleSheet>)
        ensures
            index < old(self)@.len() ==> r is Some && *r->0 == old(self)@[index as int],
            index >= old(self)@.len() ==> r is None && final(self)@ == old(self)@,
            (r matches Some(x) ==> final(self)@ == old(self)@.update(index as int, *final(x))),
    {
        if index < self.sheets.len() {
            Some(&mut self.sheets[index])
        } else {
            None
        }
    }

    /// Appends a sheet.
    pub fn push(&mut self, sheet: CssStyleSheet)
        ensures
            final(self)@ == old(self)@.push(sheet),
    {
        self.sheets.push(sheet);
    }

    /// All sheets, in order.
    pub fn iter(&self) -> (r: Vec<&CssStyleSheet>)
        ensures
            r@.len() == self@.len(),
            forall|i: int| 0 <= i < r@.len() ==> *r@[i] == self@[i],
    {
        let mut r: Vec<&CssStyleSheet> = Vec::new();
        let mut i: usize = 0;
        while i < self.sheets.len()
            invariant
                i <= self.sheets@.len(),
                r@.len() == i,
                forall|j: int| 0 <= j < i ==> *r@[j] == self.sheets@[j],
            decreases self.sheets.len() - i,
        {
            r.push(&self.sheets[i]);
            i += 1;
        }
        r
    }

    /// The sheets that are not disabled, in order (what the cascade reads).
    pub fn active_sheets(&self) -> (r: Vec<&CssStyleSheet>)
        ensures
            r@.len() == active(self@).len(),
            forall|i: int| 0 <= i < r@.len() ==> *r@[i] == active(self@)[i],
    {
        let mut r: Vec<&CssStyleSheet> = Vec::new();
        let mut i: usize = 0;
        while i < self.sheets.len()
            invariant
                i <= self.sheets@.len(),
                r@.len() == active(self.sheets@.take(i as int)).len(),
                forall|j: int| 0 <= j < r@.len() ==> *r@[j] == active(self.sheets@.take(i as int))[j],
            decreases self.sheets.len() - i,
        {
            let ghost pre = self.sheets@.take(i as int);
            proof {
                assert(self.sheets@.take(i + 1) =~= pre.push(self.sheets@[i as int]));
                reveal(Seq::filter);
                assert(active(pre.push(self.sheets@[i as int])) == if self.sheets@[i as int].disabled {
                    active(pre)
                } else {
                    active(pre).push(self.sheets@[i as int])
                }) by {
                    assert(pre.push(self.sheets@[i as int]).drop_last() =~= pre);
                }
            }
            if !self.sheets[i].disabled {
                r.push(&self.sheets[i]);
            }
            i += 1;
        }
        assert(self.sheets@.take(self.sheets@.len() as int) =~= self.sheets@);
        r
    }
}

impl Default for StyleSheetList {
    fn default() -> (r: Self)
        ensures
            r@ == Seq::<CssStyleSheet>::empty(),
    {
        Self::new()
    }
}

} // verus!
