//! The texts of the interactive view: one line per tree row, the help bar,
//! the overlays, and how far the tree is scrolled.
use vstd::prelude::*;

use crate::format::{
    attr_full, decimal, decimal_text, entity_line, format_entity, format_inline_attrs,
    inline_attrs_text, quant_text,
};
use crate::model::{
    attributes_view, element_map_get_index, element_map_index_of, entities_view, key_index,
    lemma_key_index_at, lemma_key_index_none, strings_view, SpecAttribute, SpecElement,
    SpecEntity,
};
use crate::state::{rows_view, AppState, Overlay, RowView};
use crate::tree::{content_count, count_children, get_direct_children, law_count_is_children_len};

verus! {

/// The element declared under `name`, if any.
pub open spec fn element_named(es: Seq<(Seq<char>, SpecElement)>, name: Seq<char>) -> Option<
    SpecElement,
> {
    match key_index(es, name) {
        Some(j) => if 0 <= j < es.len() {
            Some(es[j].1)
        } else {
            None
        },
        None => None,
    }
}

/// Two spaces per level.
pub open spec fn indent(d: nat) -> Seq<char>
    decreases d,
{
    if d == 0 {
        seq![]
    } else {
        indent((d - 1) as nat) + seq![' ', ' ']
    }
}

/// Nothing for a leaf, `▼` for an expanded row, `▶` for a collapsed one.
pub open spec fn icon(row: RowView) -> Seq<char> {
    if !row.has_children {
        seq![' ', ' ']
    } else if row.is_expanded {
        seq!['▼', ' ']
    } else {
        seq!['▶', ' ']
    }
}

/// ` (n children)` on a collapsed row whose element names children.
pub open spec fn children_note(es: Seq<(Seq<char>, SpecElement)>, row: RowView) -> Seq<char> {
    if !row.is_expanded && row.has_children {
        let count = match element_named(es, row.element_name) {
            Some(e) => content_count(e.content),
            None => 0,
        };
        if count > 0 {
            seq![' ', '('] + decimal(count) + seq![
                ' ',
                'c',
                'h',
                'i',
                'l',
                'd',
                'r',
                'e',
                'n',
                ')',
            ]
        } else {
            seq![]
        }
    } else {
        seq![]
    }
}

/// The text of a tree row.
pub open spec fn row_label(es: Seq<(Seq<char>, SpecElement)>, row: RowView) -> Seq<char> {
    indent(row.depth as nat) + icon(row) + row.element_name + quant_text(row.quantifier) + match element_named(
        es,
        row.element_name,
    ) {
        Some(e) => inline_attrs_text(e.attributes),
        None => seq![],
    } + children_note(es, row)
}

/// How a row is highlighted.
#[derive(Debug, Clone, Copy, PartialEq, Eq, Structural)]
pub enum RowStyle {
    Cursor,
    Match,
    Plain,
}

/// The first row shown when `visible_height` rows fit, so that the cursor is shown.
pub fn scroll_offset(cursor: usize, visible_height: usize) -> (r: usize)
    requires
        visible_height > 0 || cursor < usize::MAX,
    ensures
        r == if cursor >= visible_height {
            cursor - visible_height + 1
        } else {
            0
        },
{
    if cursor >= visible_height {
        cursor - visible_height + 1
    } else {
        0
    }
}

fn lit(s: &str) -> (r: String)
    ensures
        r@ == s@,
{
    s.to_string()
}

impl AppState {
    /// How row `i` is highlighted: the cursor's row, a search match, or plain.
    pub fn row_style(&self, i: usize) -> (r: RowStyle)
        ensures
            r == if i == self.cursor {
                RowStyle::Cursor
            } else if self.search_matches@.contains(i) {
                RowStyle::Match
            } else {
                RowStyle::Plain
            },
    {
        if i == self.cursor {
            return RowStyle::Cursor;
        }
        let mut k: usize = 0;
        while k < self.search_matches.len()
            invariant
                k <= self.search_matches@.len(),
                i != self.cursor,
                forall|t: int| 0 <= t < k ==> self.search_matches@[t] != i,
            decreases self.search_matches@.len() - k,
        {
            if self.search_matches[k] == i {
                assert(self.search_matches@[k as int] == i);
                return RowStyle::Match;
            }
            k += 1;
        }
        RowStyle::Plain
    }

    /// The text of row `i`: indentation, icon, name, quantifier, attributes
    /// and, on a collapsed row, how many children it has.
    pub fn row_text(&self, i: usize) -> (r: String)
        requires
            i < self.rows@.len(),
        ensures
            r@ == row_label(self.dtd.element_entries(), rows_view(self.rows@)[i as int]),
    {
        let ghost es = self.dtd.element_entries();
        let row = &self.rows[i];
        let ghost rv = row@;
        proof {
            reveal_strlit("  ");
            reveal_strlit("▼ ");
            reveal_strlit("▶ ");
            reveal_strlit(" (");
            reveal_strlit(" children)");
            assert("  "@ =~= seq![' ', ' ']);
            assert("▼ "@ =~= seq!['▼', ' ']);
            assert("▶ "@ =~= seq!['▶', ' ']);
            assert(" ("@ =~= seq![' ', '(']);
        }
        let mut text = String::new();
        let mut d: usize = 0;
        while d < row.depth
            invariant
                d <= row.depth,
                text@ == indent(d as nat),
            decreases row.depth - d,
        {
            proof {
                reveal_strlit("  ");
                assert("  "@ =~= seq![' ', ' ']);
            }
            text.append("  ");
            d += 1;
        }
        if !row.has_children {
            text.append("  ");
        } else if row.is_expanded {
            text.append("▼ ");
        } else {
            text.append("▶ ");
        }
        text.append(row.element_name.as_str());
        let q = row.quantifier.text();
        text.append(q.as_str());
        let found = element_map_index_of(&self.dtd.elements, row.element_name.as_str());
        let ghost before_attrs = text@;
        match found {
            Some(j) => {
                proof {
                    lemma_key_index_at(es, rv.element_name, j as int);
                }
                let (_, e) = element_map_get_index(&self.dtd.elements, j).unwrap();
                let attrs = format_inline_attrs(e.attributes.as_slice());
                text.append(attrs.as_str());
                if !row.is_expanded && row.has_children {
                    // The children fit in a vector, so their number fits in a `usize`.
                    let children = get_direct_children(&e.content);
                    let listed = children.len();
                    proof {
                        law_count_is_children_len(e.content.spec_view());
                    }
                    let count = count_children(&e.content);
                    assert(count == listed);
                    if count > 0 {
                        text.append(" (");
                        let num = decimal_text(count);
                        text.append(num.as_str());
                        text.append(" children)");
                    }
                }
            },
            None => {
                proof {
                    lemma_key_index_none(es, rv.element_name);
                }
            },
        }
        proof {
            assert(text@ =~= row_label(es, rv));
        }
        text
    }

    /// The help bar: the query being typed, or the keys.
    pub fn help_text(&self) -> (r: String)
        ensures
            self.search_mode ==> r@ == seq!['S', 'e', 'a', 'r', 'c', 'h', ':', ' '] + self.search_query@
                + seq!['█'],
            !self.search_mode ==> r@ == "[↑↓] move  [Enter/→] expand  [←] collapse  [/] search  [e] entities  [a] attributes  [q] quit"@,
    {
        if self.search_mode {
            proof {
                reveal_strlit("Search: ");
                reveal_strlit("█");
            }
            let mut s = lit("Search: ");
            s.append(self.search_query.as_str());
            s.append("█");
            s
        } else {
            lit(
                "[↑↓] move  [Enter/→] expand  [←] collapse  [/] search  [e] entities  [a] attributes  [q] quit",
            )
        }
    }

    /// The title of an overlay.
    pub fn overlay_title(&self, overlay: &Overlay) -> (r: String)
        ensures
            overlay is Entities ==> r@ == seq![' ', 'E', 'n', 't', 'i', 't', 'i', 'e', 's', ' '],
            overlay matches Overlay::Attributes(name) ==> r@ == seq![
                ' ',
                'A',
                't',
                't',
                'r',
                'i',
                'b',
                'u',
                't',
                'e',
                's',
                ':',
                ' ',
            ] + name@ + seq![' '],
    {
        proof {
            reveal_strlit(" Entities ");
            reveal_strlit(" Attributes: ");
            reveal_strlit(" ");
        }
        match overlay {
            Overlay::Entities => lit(" Entities "),
            Overlay::Attributes(name) => {
                let mut s = lit(" Attributes: ");
                s.append(name.as_str());
                s.append(" ");
                s
            },
        }
    }

    /// The lines of an overlay: every entity, or every attribute of the element.
    pub fn overlay_lines(&self, overlay: &Overlay) -> (r: Vec<String>)
        ensures
            overlay is Entities ==> strings_view(r@) == if self.dtd.entities@.len() == 0 {
                seq![seq![
                    'N',
                    'o',
                    ' ',
                    'e',
                    'n',
                    't',
                    'i',
                    't',
                    'i',
                    'e',
                    's',
                    ' ',
                    'd',
                    'e',
                    'f',
                    'i',
                    'n',
                    'e',
                    'd',
                    '.',
                ]]
            } else {
                entities_view(self.dtd.entities@).map_values(|e: SpecEntity| entity_line(e))
            },
            overlay matches Overlay::Attributes(name) ==> strings_view(r@) == match element_named(
                self.dtd.element_entries(),
                name@,
            ) {
                None => seq![],
                Some(e) => if e.attributes.len() == 0 {
                    seq![seq![
                        'N',
                        'o',
                        ' ',
                        'a',
                        't',
                        't',
                        'r',
                        'i',
                        'b',
                        'u',
                        't',
                        'e',
                        's',
                        ' ',
                        'd',
                        'e',
                        'f',
                        'i',
                        'n',
                        'e',
                        'd',
                        '.',
                    ]]
                } else {
                    e.attributes.map_values(|a: SpecAttribute| seq![' ', ' '] + attr_full(a))
                },
            },
    {
        let ghost es = self.dtd.element_entries();
        let mut lines: Vec<String> = Vec::new();
        proof {
            reveal_strlit("No entities defined.");
            reveal_strlit("No attributes defined.");
            reveal_strlit("  ");
            assert("No entities defined."@ =~= seq![
                'N',
                'o',
                ' ',
                'e',
                'n',
                't',
                'i',
                't',
                'i',
                'e',
                's',
                ' ',
                'd',
                'e',
                'f',
                'i',
                'n',
                'e',
                'd',
                '.',
            ]);
            assert("No attributes defined."@ =~= seq![
                'N',
                'o',
                ' ',
                'a',
                't',
                't',
                'r',
                'i',
                'b',
                'u',
                't',
                'e',
                's',
                ' ',
                'd',
                'e',
                'f',
                'i',
                'n',
                'e',
                'd',
                '.',
            ]);
        }
        match overlay {
            Overlay::Entities => {
                if self.dtd.entities.len() == 0 {
                    lines.push(lit("No entities defined."));
                } else {
                    let ghost ev = entities_view(self.dtd.entities@);
                    let mut k: usize = 0;
                    while k < self.dtd.entities.len()
                        invariant
                            k <= self.dtd.entities@.len(),
                            ev == entities_view(self.dtd.entities@),
                            strings_view(lines@) =~= ev.subrange(0, k as int).map_values(
                                |e: SpecEntity| entity_line(e),
                            ),
                        decreases self.dtd.entities@.len() - k,
                    {
                        let ghost before = strings_view(lines@);
                        lines.push(format_entity(&self.dtd.entities[k]));
                        assert(strings_view(lines@) =~= before.push(entity_line(ev[k as int])));
                        k += 1;
                    }
                    assert(entities_view(self.dtd.entities@).subrange(0, k as int) =~= entities_view(
                        self.dtd.entities@,
                    ));
                }
            },
            Overlay::Attributes(elem_name) => {
                match element_map_index_of(&self.dtd.elements, elem_name.as_str()) {
                    Some(j) => {
                        proof {
                            lemma_key_index_at(es, elem_name@, j as int);
                        }
                        let (_, elem) = element_map_get_index(&self.dtd.elements, j).unwrap();
                        if elem.attributes.len() == 0 {
                            lines.push(lit("No attributes defined."));
                        } else {
                            let ghost av = attributes_view(elem.attributes@);
                            let mut k: usize = 0;
                            while k < elem.attributes.len()
                                invariant
                                    k <= elem.attributes@.len(),
                                    av == attributes_view(elem.attributes@),
                                    strings_view(lines@) =~= av.subrange(0, k as int).map_values(
                                        |a: SpecAttribute| seq![' ', ' '] + attr_full(a),
                                    ),
                                decreases elem.attributes@.len() - k,
                            {
                                proof {
                                    reveal_strlit("  ");
                                    assert("  "@ =~= seq![' ', ' ']);
                                }
                                let mut line = lit("  ");
                                let text = crate::format::attr_line(&elem.attributes[k]);
                                line.append(text.as_str());
                                let ghost before = strings_view(lines@);
                                let ghost lv = line@;
                                lines.push(line);
                                assert(strings_view(lines@) =~= before.push(lv));
                                k += 1;
                            }
                            assert(av.subrange(0, k as int) =~= av);
                        }
                    },
                    None => {
                        proof {
                            lemma_key_index_none(es, elem_name@);
                        }
                    },
                }
            },
        }
        lines
    }
}

} // verus!
