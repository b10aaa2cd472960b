//! An entry of the store: identifier, header and raw content.

use vstd::prelude::*;

use crate::codec::{
    chars_eq, parse_body, push_body, spec_body, spec_delim_at, spec_entry_accepted,
    spec_entry_text, spec_find_delim, spec_parse_body, spec_schema_ok,
};
use crate::error::{StoreError, StoreErrorKind};
use crate::header::{EntryHeader, spec_default_header, spec_header_valid, verify_header_consistency};
use crate::storeid::StoreId;
use crate::strutil::{str_chars, string_from_chars, subvec_chars};
use crate::value::{SpecValue, Value, spec_table_view};

verus! {

/// The content type of an entry: its raw text below the header block.
pub type EntryContent = String;

/// Mathematical model of an entry.
#[verifier::ext_equal]
pub struct SpecEntry {
    pub location: Seq<char>,
    pub header: SpecValue,
    pub content: Seq<char>,
}

/// An entry of the store: location, header and content.
#[derive(Debug)]
pub struct Entry {
    location: StoreId,
    header: EntryHeader,
    content: EntryContent,
}

impl View for Entry {
    type V = SpecEntry;

    closed spec fn view(&self) -> SpecEntry {
        SpecEntry { location: self.location@, header: self.header@, content: self.content@ }
    }
}

impl Clone for Entry {
    /// The copy has the same mathematical value as the original.
    fn clone(&self) -> (r: Entry)
        ensures
            r@ == self@,
    {
        let r = Entry {
            location: self.location.clone(),
            header: self.header.clone(),
            content: self.content.clone(),
        };
        proof {
            assert(r@ =~= self@);
        }
        r
    }
}

impl Entry {
    /// A fresh entry at `loc`: default header, empty content.
    pub fn new(loc: StoreId) -> (r: Entry)
        ensures
            r@.location == loc@,
            r@.header == spec_default_header(),
            r@.content == Seq::<char>::empty(),
    {
        Entry { location: loc, header: EntryHeader::new(), content: String::new() }
    }

    /// Builds an entry from its parts.
    pub fn from_parts(loc: StoreId, header: EntryHeader, content: EntryContent) -> (r: Entry)
        ensures
            r@.location == loc@,
            r@.header == header@,
            r@.content == content@,
    {
        Entry { location: loc, header: header, content: content }
    }

    /// Parses the on-disk textual form: a header block between lines of three
    /// dashes, followed by the raw content.  The result is pinned for every
    /// input: missing delimiters, an unparsable or non-canonical header and a
    /// schema-breaking header are malformed entries (the latter two carrying
    /// the parser kind as cause), and everything else is accepted, as exactly
    /// the parsed header and the verbatim content.  An accepted text is
    /// always the serialization of its result.
    #[verifier::loop_isolation(false)]
    pub fn from_str(loc: StoreId, s: &str) -> (r: Result<Entry, StoreError>)
        ensures
            ({
                let gs = s@;
                if !(gs.len() >= 4 && gs[0] == '-' && gs[1] == '-' && gs[2] == '-' && gs[3]
                    == '\n') {
                    r matches Err(e) && e.spec_kind() == StoreErrorKind::MalformedEntry
                } else {
                    match spec_find_delim(gs, 4) {
                        None => r matches Err(e) && e.spec_kind()
                            == StoreErrorKind::MalformedEntry,
                        Some(p) => match spec_parse_body(gs, 4, p, (gs.len() + 1) as nat) {
                            None => r matches Err(e) && e.spec_kind()
                                == StoreErrorKind::MalformedEntry && (e.spec_parser_cause()
                                matches Some(pc) && pc.spec_kind()
                                == crate::error::ParserErrorKind::TOMLParserErrors),
                            Some(t) => if !spec_schema_ok(t) {
                                r matches Err(e) && e.spec_kind()
                                    == StoreErrorKind::MalformedEntry && (e.spec_parser_cause()
                                    matches Some(pc) && pc.spec_kind()
                                    == crate::error::ParserErrorKind::HeaderInconsistency)
                            } else if spec_body(t) != gs.subrange(4, p) {
                                r matches Err(e) && e.spec_kind()
                                    == StoreErrorKind::MalformedEntry
                            } else {
                                r matches Ok(en) && en@ == (SpecEntry {
                                    location: loc@,
                                    header: SpecValue::Table(t),
                                    content: gs.skip(p + 4),
                                })
                            },
                        },
                    }
                }
            }),
            r is Ok <==> spec_entry_accepted(s@) is Some,
            r matches Ok(e) ==> e@.location == loc@ && spec_header_valid(e@.header)
                && (e@.header matches SpecValue::Table(t) && spec_entry_text(t, e@.content) == s@
                && spec_entry_accepted(s@) == Some((t, e@.content))),
            r matches Err(err) ==> err.spec_kind() == StoreErrorKind::MalformedEntry,
    {
        let chars = str_chars(s);
        let n = chars.len();
        if !(n >= 4 && chars[0] == '-' && chars[1] == '-' && chars[2] == '-' && chars[3] == '\n') {
            return Err(StoreError::new(StoreErrorKind::MalformedEntry, None));
        }
        // find the first closing delimiter line after the opening one
        let mut i: usize = 4;
        while i < n && !(chars[i - 1] == '\n' && chars[i] == '-' && i + 1 < n && chars[i + 1]
            == '-' && i + 2 < n && chars[i + 2] == '-' && i + 3 < n && chars[i + 3] == '\n')
            invariant
                4 <= i <= n,
                n == chars@.len(),
                spec_find_delim(s@, 4) == spec_find_delim(s@, i as int),
            decreases n - i,
        {
            i = i + 1;
        }
        if i >= n {
            return Err(StoreError::new(StoreErrorKind::MalformedEntry, None));
        }
        let p = i;
        proof {
            assert(spec_delim_at(s@, p as int));
            assert(spec_find_delim(s@, 4) == Some(p as int));
        }
        let t = match parse_body(&chars, 4, p, Ghost((chars@.len() + 1) as nat)) {
            Some(t) => t,
            None => {
                return Err(
                    StoreError::from_parser_error(
                        crate::error::ParserError::new(
                            crate::error::ParserErrorKind::TOMLParserErrors,
                            None,
                        ),
                    ),
                );
            },
        };
        let t = match verify_header_consistency(t) {
            Ok(t) => t,
            Err(pe) => {
                return Err(StoreError::from_parser_error(pe));
            },
        };
        // the parsed tree must serialize back to the body it was read from
        let mut body: Vec<char> = Vec::new();
        push_body(&mut body, &t);
        let orig_body = subvec_chars(&chars, 4, p);
        if !chars_eq(&body, &orig_body) {
            return Err(StoreError::new(StoreErrorKind::MalformedEntry, None));
        }
        let content_chars = subvec_chars(&chars, p + 4, n);
        let content = string_from_chars(&content_chars);
        let e = Entry {
            location: loc,
            header: EntryHeader::from_table(t),
            content: content,
        };
        proof {
            reveal_strlit("---\n");
            assert(e@.content =~= s@.skip(p as int + 4));
            assert(spec_entry_text(spec_table_view(t@), e@.content) =~= s@);
            assert(e@ =~= (SpecEntry {
                location: e@.location,
                header: SpecValue::Table(spec_table_view(t@)),
                content: s@.skip(p as int + 4),
            }));
        }
        Ok(e)
    }

    /// The on-disk textual form of this entry: the serialized header between
    /// dashed delimiter lines, then the content verbatim.
    pub fn to_str(&self) -> (r: String)
        requires
            self@.header is Table,
        ensures
            r@ == spec_entry_text(self@.header->Table_0, self@.content),
    {
        let mut out: Vec<char> = Vec::new();
        crate::strutil::push_str_chars(&mut out, "---\n");
        match self.header.header() {
            Value::Table(t) => {
                push_body(&mut out, t);
            },
            _ => {
                proof {
                    assert(false);
                }
            },
        }
        crate::strutil::push_str_chars(&mut out, "---\n");
        crate::strutil::push_str_chars(&mut out, self.content.as_str());
        proof {
            assert(out@ =~= spec_entry_text(self@.header->Table_0, self@.content));
        }
        string_from_chars(&out)
    }

    /// The location (identifier) of this entry.
    pub fn get_location(&self) -> (r: &StoreId)
        ensures
            r@ == self@.location,
    {
        &self.location
    }

    /// The header of this entry.
    pub fn get_header(&self) -> (r: &EntryHeader)
        ensures
            r@ == self@.header,
    {
        &self.header
    }

    /// Mutable access to the header; the rest of the entry is unchanged.
    pub fn get_header_mut(&mut self) -> (r: &mut EntryHeader)
        ensures
            *r == old(self).header_part(),
            final(self)@ == (SpecEntry {
                header: final(r)@,
                ..old(self)@
            }),
    {
        &mut self.header
    }

    /// The content of this entry.
    pub fn get_content(&self) -> (r: &EntryContent)
        ensures
            r@ == self@.content,
    {
        &self.content
    }

    /// Mutable access to the content; the rest of the entry is unchanged.
    pub fn get_content_mut(&mut self) -> (r: &mut EntryContent)
        ensures
            r@ == old(self)@.content,
            final(self)@ == (SpecEntry {
                content: final(r)@,
                ..old(self)@
            }),
    {
        &mut self.content
    }

    /// Replaces the content; the rest of the entry is unchanged.
    pub fn set_content(&mut self, content: EntryContent)
        ensures
            final(self)@ == (SpecEntry {
                content: content@,
                ..old(self)@
            }),
    {
        self.content = content;
        proof {
            assert(self@ =~= SpecEntry { content: self.content@, ..old(self)@ });
        }
    }

    /// The header field itself (for relating a borrowed header to its owner).
    pub closed spec fn header_part(&self) -> EntryHeader {
        self.header
    }

    /// Checks the schema invariant of the header.
    pub fn verify(&self) -> (r: Result<(), StoreError>)
        ensures
            r is Ok <==> spec_header_valid(self@.header),
            r matches Err(e) ==> (match self@.header {
                SpecValue::Table(t) => e.spec_kind() == StoreErrorKind::MalformedEntry && (
                e.spec_parser_cause() matches Some(p) && p.spec_kind()
                    == crate::header::spec_schema_error_kind(t)),
                _ => e.spec_kind() == StoreErrorKind::HeaderTypeFailure,
            }),
    {
        self.header.verify()
    }
}

} // verus!
