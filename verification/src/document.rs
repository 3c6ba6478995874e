//! The struct documenter: builds one document per struct item, with fields
//! resolved against the owning crate's index, and renders it with a fixed
//! textual template.

use vstd::prelude::*;
use vstd::string::StringExecFns;

use crate::catalog::{CrateDesc, field_wf, fields_wf, lookup_seq, struct_fields_wf};
use crate::items::{Id, Item, StructKind};

verus! {

/// The mathematical content of one field entry.
#[verifier::ext_equal]
pub ghost struct FieldSpec {
    pub name: Seq<char>,
    pub docs: Option<Seq<char>>,
}

/// The mathematical content of one struct document.
#[verifier::ext_equal]
pub ghost struct DocSpec {
    pub name: Seq<char>,
    pub docs: Option<Seq<char>>,
    pub fields: Seq<FieldSpec>,
}

/// One documented field: display name and optional documentation.
pub struct FieldDoc {
    pub name: String,
    pub docs: Option<String>,
}

/// One struct's document: display name, optional top-level documentation,
/// and the fields in declaration order.
pub struct StructDocument {
    pub name: String,
    pub docs: Option<String>,
    pub fields: Vec<FieldDoc>,
}

pub open spec fn opt_str_view(o: Option<String>) -> Option<Seq<char>> {
    match o {
        Some(s) => Some(s@),
        None => None,
    }
}

impl View for FieldDoc {
    type V = FieldSpec;

    open spec fn view(&self) -> FieldSpec {
        FieldSpec { name: self.name@, docs: opt_str_view(self.docs) }
    }
}

impl View for StructDocument {
    type V = DocSpec;

    open spec fn view(&self) -> DocSpec {
        DocSpec {
            name: self.name@,
            docs: opt_str_view(self.docs),
            fields: self.fields@.map_values(|f: FieldDoc| f@),
        }
    }
}

/// The field entry derived from one field identifier, resolved in the
/// owning crate's index.
pub open spec fn field_doc_spec(index: Seq<(Id, Item)>, fid: Id) -> FieldSpec {
    let item = lookup_seq(index, fid)->Some_0;
    FieldSpec { name: item.name->Some_0@, docs: opt_str_view(item.docs) }
}

/// The document derived from one struct item.  Plain-struct fields are
/// resolved within `index` — the index of the crate that owns the struct —
/// in declaration order; unit and tuple structs contribute no fields.
pub open spec fn struct_doc_spec(index: Seq<(Id, Item)>, item: Item, kind: StructKind) -> DocSpec {
    DocSpec {
        name: item.name->Some_0@,
        docs: opt_str_view(item.docs),
        fields: match kind {
            StructKind::Plain { fields } => fields@.map_values(
                |fid: Id| field_doc_spec(index, fid),
            ),
            _ => Seq::empty(),
        },
    }
}

/// Build the document for one struct item.  Field identifiers are looked
/// up in `desc` — the description of the crate the struct was reached in —
/// never anywhere else.
pub fn document_struct(desc: &CrateDesc, item: &Item, kind: &StructKind) -> (doc: StructDocument)
    requires
        item.name is Some,
        struct_fields_wf(desc.index@, *kind),
    ensures
        doc@ == struct_doc_spec(desc.index@, *item, *kind),
{
    let name: String = match &item.name {
        Some(n) => n.clone(),
        None => {
            proof {
                assert(false);
            }
            String::new()
        },
    };
    let docs: Option<String> = match &item.docs {
        Some(d) => Some(d.clone()),
        None => None,
    };
    let mut fdocs: Vec<FieldDoc> = Vec::new();
    match kind {
        StructKind::Plain { fields } => {
            let n = fields.len();
            let mut i: usize = 0;
            proof {
                assert(struct_fields_wf(desc.index@, StructKind::Plain { fields: *fields }));
                assert(fields_wf(desc.index@, fields@));
                assert(forall|k: int|
                    0 <= k < fields@.len() ==> field_wf(desc.index@, #[trigger] fields@[k]));
                assert(fields@.take(0) =~= Seq::<Id>::empty());
                assert(fdocs@.map_values(|f: FieldDoc| f@) =~= Seq::<FieldSpec>::empty());
                assert(fields@.take(0).map_values(|fid: Id| field_doc_spec(desc.index@, fid))
                    =~= Seq::<FieldSpec>::empty());
            }
            while i < n
                invariant
                    n == fields@.len(),
                    0 <= i <= n,
                    forall|k: int| 0 <= k < n ==> field_wf(desc.index@, #[trigger] fields@[k]),
                    fdocs@.map_values(|f: FieldDoc| f@) == fields@.take(i as int).map_values(
                        |fid: Id| field_doc_spec(desc.index@, fid),
                    ),
                decreases n - i,
            {
                let fid = fields[i];
                match desc.lookup(fid) {
                    Some(fitem) => {
                        let fname: String = match &fitem.name {
                            Some(nm) => nm.clone(),
                            None => {
                                proof {
                                    assert(false);
                                }
                                String::new()
                            },
                        };
                        let fdo: Option<String> = match &fitem.docs {
                            Some(d) => Some(d.clone()),
                            None => None,
                        };
                        let fd = FieldDoc { name: fname, docs: fdo };
                        let ghost gfd = fd;
                        let ghost prev = fdocs@;
                        fdocs.push(fd);
                        proof {
                            let cl = |f: FieldDoc| f@;
                            let fm = |fid2: Id| field_doc_spec(desc.index@, fid2);
                            assert(gfd@ == field_doc_spec(desc.index@, fields@[i as int]));
                            assert(prev.map_values(cl).len() == prev.len());
                            assert(fields@.take(i as int).map_values(fm).len() == i as int);
                            assert(prev.len() == i as int);
                            assert(fdocs@ == prev.push(gfd));
                            assert forall|k: int|
                                0 <= k < fdocs@.len() implies fdocs@.map_values(cl)[k]
                                == fields@.take(i as int + 1).map_values(fm)[k] by {
                                if k < i as int {
                                    assert(prev.map_values(cl)[k] == fields@.take(
                                        i as int,
                                    ).map_values(fm)[k]);
                                    assert(fields@.take(i as int)[k] == fields@.take(
                                        i as int + 1,
                                    )[k]);
                                } else {
                                    assert(fdocs@[k] == gfd);
                                    assert(fields@.take(i as int + 1)[k] == fields@[i as int]);
                                }
                            }
                            assert(fdocs@.map_values(cl) =~= fields@.take(i as int + 1).map_values(
                                fm,
                            ));
                        }
                    },
                    None => {
                        proof {
                            assert(false);
                        }
                    },
                }
                i += 1;
            }
            proof {
                assert(fields@.take(n as int) =~= fields@);
            }
        },
        StructKind::Unit => {
            proof {
                assert(fdocs@.map_values(|f: FieldDoc| f@) =~= Seq::<FieldSpec>::empty());
            }
        },
        StructKind::Tuple => {
            proof {
                assert(fdocs@.map_values(|f: FieldDoc| f@) =~= Seq::<FieldSpec>::empty());
            }
        },
    }
    StructDocument { name, docs, fields: fdocs }
}

/// The field-summary line's tail, starting at field `j`: each field name
/// followed by a comma and a space.
pub open spec fn names_line_from(fields: Seq<FieldSpec>, j: int) -> Seq<char>
    decreases fields.len() - j,
{
    if j < 0 || j >= fields.len() {
        Seq::empty()
    } else {
        fields[j].name + ", "@ + names_line_from(fields, j + 1)
    }
}

/// The per-field detail sections, starting at field `j`: fields with no
/// documentation are omitted.
pub open spec fn details_from(fields: Seq<FieldSpec>, j: int) -> Seq<char>
    decreases fields.len() - j,
{
    if j < 0 || j >= fields.len() {
        Seq::empty()
    } else {
        (match fields[j].docs {
            Some(d) => "More details about the "@ + fields[j].name + " field:\n\n"@ + d + "\n\n"@,
            None => Seq::empty(),
        }) + details_from(fields, j + 1)
    }
}

/// The fixed output template: a header line, the top documentation if
/// present, and — only when there are fields — the summary line and the
/// detail sections.
pub open spec fn render_spec(doc: DocSpec) -> Seq<char> {
    doc.name + " is a struct.\n\n"@ + (match doc.docs {
        Some(d) => d + "\n\n"@,
        None => Seq::empty(),
    }) + (if doc.fields.len() == 0 {
        Seq::empty()
    } else {
        "It has the following fields: "@ + names_line_from(doc.fields, 0) + "\n\n"@ + details_from(
            doc.fields,
            0,
        )
    })
}

/// Law: a document with no fields — a unit or tuple struct — renders the
/// header and the top documentation only, with no fields section at all.
pub proof fn lemma_no_fields_render(doc: DocSpec)
    requires
        doc.fields.len() == 0,
    ensures
        render_spec(doc) == doc.name + " is a struct.\n\n"@ + (match doc.docs {
            Some(d) => d + "\n\n"@,
            None => Seq::empty(),
        }),
{
    assert(render_spec(doc) =~= doc.name + " is a struct.\n\n"@ + (match doc.docs {
        Some(d) => d + "\n\n"@,
        None => Seq::empty(),
    }));
}

/// Whether two documents of a batch share a display name.  Output paths
/// are keyed by name alone, so such a pair would be written to the same
/// file, one silently overwriting the other; callers can surface this.
pub fn has_name_collision(docs: &Vec<StructDocument>) -> (b: bool)
    ensures
        b == exists|i: int, j: int|
            0 <= i < j < docs@.len() && (#[trigger] docs@[i]).name@ == (#[trigger] docs@[j]).name@,
{
    let n = docs.len();
    let mut i: usize = 0;
    while i < n
        invariant
            n == docs@.len(),
            0 <= i <= n,
            forall|a: int, b2: int|
                0 <= a < b2 < docs@.len() && a < i ==> (#[trigger] docs@[a]).name@ != (
                #[trigger] docs@[b2]).name@,
        decreases n - i,
    {
        let mut j: usize = i + 1;
        while j < n
            invariant
                n == docs@.len(),
                0 <= i < n,
                i < j <= n,
                forall|b2: int| i < b2 < j ==> docs@[i as int].name@ != (#[trigger] docs@[b2]).name@,
            decreases n - j,
        {
            if crate::paths::str_eq(docs[i].name.as_str(), docs[j].name.as_str()) {
                proof {
                    assert(docs@[i as int].name@ == docs@[j as int].name@);
                }
                return true;
            }
            j += 1;
        }
        i += 1;
    }
    false
}

impl StructDocument {
    /// Serialize this document with the fixed template.
    pub fn render(&self) -> (out: String)
        ensures
            out@ == render_spec(self@),
    {
        let mut out = self.name.clone();
        out.append(" is a struct.\n\n");
        match &self.docs {
            Some(d) => {
                out.append(d.as_str());
                out.append("\n\n");
            },
            None => {},
        }
        let ghost head: Seq<char> = out@;
        proof {
            assert(head =~= self@.name + " is a struct.\n\n"@ + (match self@.docs {
                Some(d) => d + "\n\n"@,
                None => Seq::<char>::empty(),
            }));
        }
        let n = self.fields.len();
        let ghost fv = self@.fields;
        if n > 0 {
            out.append("It has the following fields: ");
            let ghost names_goal = out@ + names_line_from(fv, 0);
            let mut i: usize = 0;
            while i < n
                invariant
                    n == self.fields@.len(),
                    fv == self@.fields,
                    n == fv.len(),
                    0 <= i <= n,
                    out@ + names_line_from(fv, i as int) == names_goal,
                decreases n - i,
            {
                let ghost prev = out@;
                let f = &self.fields[i];
                out.append(f.name.as_str());
                out.append(", ");
                proof {
                    assert(fv[i as int] == self.fields@[i as int]@);
                    assert(out@ + names_line_from(fv, i as int + 1) =~= prev + names_line_from(
                        fv,
                        i as int,
                    ));
                }
                i += 1;
            }
            out.append("\n\n");
            let ghost details_goal = out@ + details_from(fv, 0);
            let mut i: usize = 0;
            while i < n
                invariant
                    n == self.fields@.len(),
                    fv == self@.fields,
                    n == fv.len(),
                    0 <= i <= n,
                    out@ + details_from(fv, i as int) == details_goal,
                decreases n - i,
            {
                let ghost prev = out@;
                let f = &self.fields[i];
                match &f.docs {
                    Some(d) => {
                        out.append("More details about the ");
                        out.append(f.name.as_str());
                        out.append(" field:\n\n");
                        out.append(d.as_str());
                        out.append("\n\n");
                    },
                    None => {},
                }
                proof {
                    assert(fv[i as int] == self.fields@[i as int]@);
                    assert(out@ + details_from(fv, i as int + 1) =~= prev + details_from(
                        fv,
                        i as int,
                    ));
                }
                i += 1;
            }
            proof {
                assert(names_line_from(fv, n as int) == Seq::<char>::empty());
                assert(details_from(fv, n as int) == Seq::<char>::empty());
                assert(out@ =~= render_spec(self@));
            }
        } else {
            proof {
                assert(out@ =~= render_spec(self@));
            }
        }
        out
    }

    /// The output file name that encodes this document's identity: the
    /// struct's display name with the fixed extension.
    pub fn output_file_name(&self) -> (r: String)
        ensures
            r@ == self@.name + ".md"@,
    {
        let mut r = self.name.clone();
        r.append(".md");
        r
    }
}

} // verus!
