//! The vocabulary of the [DCMI Metadata Terms], all of which a body may hold.
//!
//! [DCMI Metadata Terms]: https://www.dublincore.org/specifications/dublin-core/dcmi-terms/

use crate::record::extension::same_name;
use crate::text::same_ignoring_case;
use vstd::prelude::*;

verus! {

/// A property of the DCMI `/terms/` namespace.
#[derive(Clone, Copy, Debug, Hash, PartialEq, Eq, Structural)]
pub enum DcmiTerm {
    /// `abstract`.
    Abstract,
    /// `accessRights`.
    AccessRights,
    /// `accrualMethod`.
    AccrualMethod,
    /// `accrualPeriodicity`.
    AccrualPeriodicity,
    /// `accrualPolicy`.
    AccrualPolicy,
    /// `alternative`.
    Alternative,
    /// `audience`.
    Audience,
    /// `available`.
    Available,
    /// `bibliographicCitation`.
    BibliographicCitation,
    /// `conformsTo`.
    ConformsTo,
    /// `contributor`.
    Contributor,
    /// `coverage`.
    Coverage,
    /// `created`.
    Created,
    /// `creator`.
    Creator,
    /// `date`.
    Date,
    /// `dateAccepted`.
    DateAccepted,
    /// `dateCopyrighted`.
    DateCopyrighted,
    /// `dateSubmitted`.
    DateSubmitted,
    /// `description`.
    Description,
    /// `educationLevel`.
    EducationLevel,
    /// `extent`.
    Extent,
    /// `format`.
    Format,
    /// `hasFormat`.
    HasFormat,
    /// `hasPart`.
    HasPart,
    /// `hasVersion`.
    HasVersion,
    /// `identifier`.
    Identifier,
    /// `instructionalMethod`.
    InstructionalMethod,
    /// `isFormatOf`.
    IsFormatOf,
    /// `isPartOf`.
    IsPartOf,
    /// `isReferencedBy`.
    IsReferencedBy,
    /// `isReplacedBy`.
    IsReplacedBy,
    /// `isRequiredBy`.
    IsRequiredBy,
    /// `issued`.
    Issued,
    /// `isVersionOf`.
    IsVersionOf,
    /// `language`.
    Language,
    /// `license`.
    License,
    /// `mediator`.
    Mediator,
    /// `medium`.
    Medium,
    /// `modified`.
    Modified,
    /// `provenance`.
    Provenance,
    /// `publisher`.
    Publisher,
    /// `references`.
    References,
    /// `relation`.
    Relation,
    /// `replaces`.
    Replaces,
    /// `requires`.
    Requires,
    /// `rights`.
    Rights,
    /// `rightsHolder`.
    RightsHolder,
    /// `source`.
    Source,
    /// `spatial`.
    Spatial,
    /// `subject`.
    Subject,
    /// `tableOfContents`.
    TableOfContents,
    /// `temporal`.
    Temporal,
    /// `title`.
    Title,
    /// `type`.
    Type,
    /// `valid`.
    Valid,
}

/// The terms of the vocabulary.
pub open spec fn terms() -> Seq<DcmiTerm> {
    seq![
        DcmiTerm::Abstract,
        DcmiTerm::AccessRights,
        DcmiTerm::AccrualMethod,
        DcmiTerm::AccrualPeriodicity,
        DcmiTerm::AccrualPolicy,
        DcmiTerm::Alternative,
        DcmiTerm::Audience,
        DcmiTerm::Available,
        DcmiTerm::BibliographicCitation,
        DcmiTerm::ConformsTo,
        DcmiTerm::Contributor,
        DcmiTerm::Coverage,
        DcmiTerm::Created,
        DcmiTerm::Creator,
        DcmiTerm::Date,
        DcmiTerm::DateAccepted,
        DcmiTerm::DateCopyrighted,
        DcmiTerm::DateSubmitted,
        DcmiTerm::Description,
        DcmiTerm::EducationLevel,
        DcmiTerm::Extent,
        DcmiTerm::Format,
        DcmiTerm::HasFormat,
        DcmiTerm::HasPart,
        DcmiTerm::HasVersion,
        DcmiTerm::Identifier,
        DcmiTerm::InstructionalMethod,
        DcmiTerm::IsFormatOf,
        DcmiTerm::IsPartOf,
        DcmiTerm::IsReferencedBy,
        DcmiTerm::IsReplacedBy,
        DcmiTerm::IsRequiredBy,
        DcmiTerm::Issued,
        DcmiTerm::IsVersionOf,
        DcmiTerm::Language,
        DcmiTerm::License,
        DcmiTerm::Mediator,
        DcmiTerm::Medium,
        DcmiTerm::Modified,
        DcmiTerm::Provenance,
        DcmiTerm::Publisher,
        DcmiTerm::References,
        DcmiTerm::Relation,
        DcmiTerm::Replaces,
        DcmiTerm::Requires,
        DcmiTerm::Rights,
        DcmiTerm::RightsHolder,
        DcmiTerm::Source,
        DcmiTerm::Spatial,
        DcmiTerm::Subject,
        DcmiTerm::TableOfContents,
        DcmiTerm::Temporal,
        DcmiTerm::Title,
        DcmiTerm::Type,
        DcmiTerm::Valid,
    ]
}

/// The first term from position `i` of a sequence on that a name spells, whatever its case.
pub open spec fn first_term(all: Seq<DcmiTerm>, name: Seq<char>, i: int) -> Option<DcmiTerm>
    decreases all.len() - i,
{
    if i < 0 || i >= all.len() {
        None
    } else if same_name(name, all[i].named()) {
        Some(all[i])
    } else {
        first_term(all, name, i + 1)
    }
}

/// The term that a name spells, whatever its case.
pub open spec fn term_named(name: Seq<char>) -> Option<DcmiTerm> {
    first_term(terms(), name, 0)
}

/// The terms of the vocabulary.
fn all_terms() -> (r: Vec<DcmiTerm>)
    ensures
        r@ == terms(),
{
    let all: Vec<DcmiTerm> = vec![
        DcmiTerm::Abstract,
        DcmiTerm::AccessRights,
        DcmiTerm::AccrualMethod,
        DcmiTerm::AccrualPeriodicity,
        DcmiTerm::AccrualPolicy,
        DcmiTerm::Alternative,
        DcmiTerm::Audience,
        DcmiTerm::Available,
        DcmiTerm::BibliographicCitation,
        DcmiTerm::ConformsTo,
        DcmiTerm::Contributor,
        DcmiTerm::Coverage,
        DcmiTerm::Created,
        DcmiTerm::Creator,
        DcmiTerm::Date,
        DcmiTerm::DateAccepted,
        DcmiTerm::DateCopyrighted,
        DcmiTerm::DateSubmitted,
        DcmiTerm::Description,
        DcmiTerm::EducationLevel,
        DcmiTerm::Extent,
        DcmiTerm::Format,
        DcmiTerm::HasFormat,
        DcmiTerm::HasPart,
        DcmiTerm::HasVersion,
        DcmiTerm::Identifier,
        DcmiTerm::InstructionalMethod,
        DcmiTerm::IsFormatOf,
        DcmiTerm::IsPartOf,
        DcmiTerm::IsReferencedBy,
        DcmiTerm::IsReplacedBy,
        DcmiTerm::IsRequiredBy,
        DcmiTerm::Issued,
        DcmiTerm::IsVersionOf,
        DcmiTerm::Language,
        DcmiTerm::License,
        DcmiTerm::Mediator,
        DcmiTerm::Medium,
        DcmiTerm::Modified,
        DcmiTerm::Provenance,
        DcmiTerm::Publisher,
        DcmiTerm::References,
        DcmiTerm::Relation,
        DcmiTerm::Replaces,
        DcmiTerm::Requires,
        DcmiTerm::Rights,
        DcmiTerm::RightsHolder,
        DcmiTerm::Source,
        DcmiTerm::Spatial,
        DcmiTerm::Subject,
        DcmiTerm::TableOfContents,
        DcmiTerm::Temporal,
        DcmiTerm::Title,
        DcmiTerm::Type,
        DcmiTerm::Valid,
    ];
    assert(all@ =~= terms());
    all
}

impl DcmiTerm {
    /// The name of the term as the vocabulary spells it.
    pub open spec fn named(self) -> Seq<char> {
        match self {
            DcmiTerm::Abstract => "abstract"@,
            DcmiTerm::AccessRights => "accessRights"@,
            DcmiTerm::AccrualMethod => "accrualMethod"@,
            DcmiTerm::AccrualPeriodicity => "accrualPeriodicity"@,
            DcmiTerm::AccrualPolicy => "accrualPolicy"@,
            DcmiTerm::Alternative => "alternative"@,
            DcmiTerm::Audience => "audience"@,
            DcmiTerm::Available => "available"@,
            DcmiTerm::BibliographicCitation => "bibliographicCitation"@,
            DcmiTerm::ConformsTo => "conformsTo"@,
            DcmiTerm::Contributor => "contributor"@,
            DcmiTerm::Coverage => "coverage"@,
            DcmiTerm::Created => "created"@,
            DcmiTerm::Creator => "creator"@,
            DcmiTerm::Date => "date"@,
            DcmiTerm::DateAccepted => "dateAccepted"@,
            DcmiTerm::DateCopyrighted => "dateCopyrighted"@,
            DcmiTerm::DateSubmitted => "dateSubmitted"@,
            DcmiTerm::Description => "description"@,
            DcmiTerm::EducationLevel => "educationLevel"@,
            DcmiTerm::Extent => "extent"@,
            DcmiTerm::Format => "format"@,
            DcmiTerm::HasFormat => "hasFormat"@,
            DcmiTerm::HasPart => "hasPart"@,
            DcmiTerm::HasVersion => "hasVersion"@,
            DcmiTerm::Identifier => "identifier"@,
            DcmiTerm::InstructionalMethod => "instructionalMethod"@,
            DcmiTerm::IsFormatOf => "isFormatOf"@,
            DcmiTerm::IsPartOf => "isPartOf"@,
            DcmiTerm::IsReferencedBy => "isReferencedBy"@,
            DcmiTerm::IsReplacedBy => "isReplacedBy"@,
            DcmiTerm::IsRequiredBy => "isRequiredBy"@,
            DcmiTerm::Issued => "issued"@,
            DcmiTerm::IsVersionOf => "isVersionOf"@,
            DcmiTerm::Language => "language"@,
            DcmiTerm::License => "license"@,
            DcmiTerm::Mediator => "mediator"@,
            DcmiTerm::Medium => "medium"@,
            DcmiTerm::Modified => "modified"@,
            DcmiTerm::Provenance => "provenance"@,
            DcmiTerm::Publisher => "publisher"@,
            DcmiTerm::References => "references"@,
            DcmiTerm::Relation => "relation"@,
            DcmiTerm::Replaces => "replaces"@,
            DcmiTerm::Requires => "requires"@,
            DcmiTerm::Rights => "rights"@,
            DcmiTerm::RightsHolder => "rightsHolder"@,
            DcmiTerm::Source => "source"@,
            DcmiTerm::Spatial => "spatial"@,
            DcmiTerm::Subject => "subject"@,
            DcmiTerm::TableOfContents => "tableOfContents"@,
            DcmiTerm::Temporal => "temporal"@,
            DcmiTerm::Title => "title"@,
            DcmiTerm::Type => "type"@,
            DcmiTerm::Valid => "valid"@,
        }
    }

    /// The name of the term as the vocabulary spells it.
    pub fn name(&self) -> (r: &'static str)
        ensures
            r@ == self.named(),
    {
        match self {
            DcmiTerm::Abstract => "abstract",
            DcmiTerm::AccessRights => "accessRights",
            DcmiTerm::AccrualMethod => "accrualMethod",
            DcmiTerm::AccrualPeriodicity => "accrualPeriodicity",
            DcmiTerm::AccrualPolicy => "accrualPolicy",
            DcmiTerm::Alternative => "alternative",
            DcmiTerm::Audience => "audience",
            DcmiTerm::Available => "available",
            DcmiTerm::BibliographicCitation => "bibliographicCitation",
            DcmiTerm::ConformsTo => "conformsTo",
            DcmiTerm::Contributor => "contributor",
            DcmiTerm::Coverage => "coverage",
            DcmiTerm::Created => "created",
            DcmiTerm::Creator => "creator",
            DcmiTerm::Date => "date",
            DcmiTerm::DateAccepted => "dateAccepted",
            DcmiTerm::DateCopyrighted => "dateCopyrighted",
            DcmiTerm::DateSubmitted => "dateSubmitted",
            DcmiTerm::Description => "description",
            DcmiTerm::EducationLevel => "educationLevel",
            DcmiTerm::Extent => "extent",
            DcmiTerm::Format => "format",
            DcmiTerm::HasFormat => "hasFormat",
            DcmiTerm::HasPart => "hasPart",
            DcmiTerm::HasVersion => "hasVersion",
            DcmiTerm::Identifier => "identifier",
            DcmiTerm::InstructionalMethod => "instructionalMethod",
            DcmiTerm::IsFormatOf => "isFormatOf",
            DcmiTerm::IsPartOf => "isPartOf",
            DcmiTerm::IsReferencedBy => "isReferencedBy",
            DcmiTerm::IsReplacedBy => "isReplacedBy",
            DcmiTerm::IsRequiredBy => "isRequiredBy",
            DcmiTerm::Issued => "issued",
            DcmiTerm::IsVersionOf => "isVersionOf",
            DcmiTerm::Language => "language",
            DcmiTerm::License => "license",
            DcmiTerm::Mediator => "mediator",
            DcmiTerm::Medium => "medium",
            DcmiTerm::Modified => "modified",
            DcmiTerm::Provenance => "provenance",
            DcmiTerm::Publisher => "publisher",
            DcmiTerm::References => "references",
            DcmiTerm::Relation => "relation",
            DcmiTerm::Replaces => "replaces",
            DcmiTerm::Requires => "requires",
            DcmiTerm::Rights => "rights",
            DcmiTerm::RightsHolder => "rightsHolder",
            DcmiTerm::Source => "source",
            DcmiTerm::Spatial => "spatial",
            DcmiTerm::Subject => "subject",
            DcmiTerm::TableOfContents => "tableOfContents",
            DcmiTerm::Temporal => "temporal",
            DcmiTerm::Title => "title",
            DcmiTerm::Type => "type",
            DcmiTerm::Valid => "valid",
        }
    }

    /// The term that a name spells, whatever its case.
    pub fn from_name(name: &str) -> (r: Option<DcmiTerm>)
        ensures
            r == term_named(name@),
    {
        let all = all_terms();
        let mut i: usize = 0;
        while i < all.len()
            invariant
                i <= all.len(),
                all@ == terms(),
                first_term(terms(), name@, 0) == first_term(terms(), name@, i as int),
            decreases all.len() - i,
        {
            if same_ignoring_case(name, all[i].name()) {
                return Some(all[i]);
            }
            i = i + 1;
        }
        None
    }
}

} // verus!
