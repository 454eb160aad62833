//! Concepts of the data model that the constraints attach to: assets,
//! encodings, compression, algorithms, access policies and compliance
//! categories. Concepts that one concept refers to are held by identity.
#![allow(non_snake_case)]
use vstd::prelude::*;

verus! {

/// A reference to another concept: its UUID and the name of its type.
pub struct ConceptRef {
    pub uuid: u128,
    pub object_type: String,
}

impl View for ConceptRef {
    type V = (u128, Seq<char>);

    open spec fn view(&self) -> (u128, Seq<char>) {
        (self.uuid, self.object_type@)
    }
}

impl Clone for ConceptRef {
    fn clone(&self) -> (r: Self)
        ensures
            r@ == self@,
    {
        ConceptRef { uuid: self.uuid, object_type: self.object_type.clone() }
    }
}

/// The references of a sequence, by value.
pub open spec fn refs_view(s: Seq<ConceptRef>) -> Seq<(u128, Seq<char>)> {
    s.map_values(|r: ConceptRef| r@)
}

/// A copy of a sequence of references.
pub fn clone_refs(v: &Vec<ConceptRef>) -> (r: Vec<ConceptRef>)
    ensures
        refs_view(r@) == refs_view(v@),
{
    let mut r: Vec<ConceptRef> = Vec::new();
    let mut i: usize = 0;
    while i < v.len()
        invariant
            i <= v@.len(),
            refs_view(r@) == refs_view(v@.take(i as int)),
        decreases v@.len() - i,
    {
        let c = v[i].clone();
        let ghost r0 = r@;
        r.push(c);
        i = i + 1;
        proof {
            assert(refs_view(r@) =~= refs_view(r0).push(v@[i - 1]@));
            assert(refs_view(v@.take(i as int)) =~= refs_view(v@.take(i - 1)).push(v@[i - 1]@));
        }
    }
    proof {
        assert(v@.take(i as int) =~= v@);
    }
    r
}

/// A regression by a random forest.
pub struct RandomForestRegressionAlgorithm {
    pub tag: Option<String>,
    pub uuid: Option<u128>,
}

/// A regression by a support vector machine.
pub struct SVMRegressionAlgorithm {
    pub tag: Option<String>,
    pub uuid: Option<u128>,
}

/// The regression algorithms a supervised model can use.
pub enum RegressionAlgorithm {
    RandomForestRegressionAlgorithm(RandomForestRegressionAlgorithm),
    SVMRegressionAlgorithm(SVMRegressionAlgorithm),
}

/// The compression of a file, by the concept that describes it.
pub enum DataCompression {
    BZip2Compression(ConceptRef),
    GzipCompression(ConceptRef),
    ZipCompression(ConceptRef),
    LAZCompression(ConceptRef),
}

/// Data encoded as an ONNX model.
pub struct ONNXEncoding {
    pub tag: Option<String>,
    pub uuid: Option<u128>,
}

/// Data encoded as tab-separated values, with a compression and a header.
pub struct TSVEncoding {
    pub compression: DataCompression,
    pub header: ConceptRef,
    pub tag: Option<String>,
    pub uuid: Option<u128>,
}

/// The description of a category of personal data.
pub struct GDPRDataType {
    pub description: String,
}

/// The categories of personal data that the GDPR names.
pub enum GDPRPersonalDataCategory {
    PersonalIdentificationData(GDPRDataType),
    PersonalLifeData(GDPRDataType),
    EconomicSituationData(GDPRDataType),
    TelecommunicationsData(GDPRDataType),
    LocationData(GDPRDataType),
    OfficialPersonalIdentifier(GDPRDataType),
    RacialOrEthnicOrigin(GDPRDataType),
    PoliticalOpinions(GDPRDataType),
    ReligionOrPhilosophicalBeliefs(GDPRDataType),
    TradeUnionMembership(GDPRDataType),
    GeneticData(GDPRDataType),
    UniquelyIdentifyingBiometricData(GDPRDataType),
    HealthData(GDPRDataType),
    SexLifeAndOrientationData(GDPRDataType),
    CriminalConvictionAndOffenceData(GDPRDataType),
}

/// An asset derived from others: a name, a storage setup and a schema.
pub struct DerivedAsset {
    pub name: String,
    pub setup: ConceptRef,
    pub schema: ConceptRef,
    pub tag: Option<String>,
    pub uuid: Option<u128>,
}

impl DerivedAsset {
    /// Replaces the storage setup; nothing else changes.
    pub fn set_storage_setup(&mut self, setup: ConceptRef)
        ensures
            final(self).setup == setup,
            final(self).name == old(self).name,
            final(self).schema == old(self).schema,
            final(self).tag == old(self).tag,
            final(self).uuid == old(self).uuid,
    {
        self.setup = setup;
    }

    pub fn get_name(&self) -> (r: String)
        ensures
            r@ == self.name@,
    {
        self.name.clone()
    }

    pub fn get_schema(&self) -> (r: ConceptRef)
        ensures
            r@ == self.schema@,
    {
        self.schema.clone()
    }

    pub fn get_storage_setup(&self) -> (r: ConceptRef)
        ensures
            r@ == self.setup@,
    {
        self.setup.clone()
    }
}

/// Named entities found in source assets.
pub struct NamedEntities {
    pub name: String,
    pub comment: Option<String>,
    pub source_assets: Vec<ConceptRef>,
    pub setup: ConceptRef,
    pub schema: ConceptRef,
    pub tag: Option<String>,
    pub uuid: Option<u128>,
}

impl NamedEntities {
    /// The assets the entities are found in, in order.
    pub fn get_source_assets(&self) -> (r: Vec<ConceptRef>)
        ensures
            refs_view(r@) == refs_view(self.source_assets@),
    {
        clone_refs(&self.source_assets)
    }

    pub fn get_schema(&self) -> (r: ConceptRef)
        ensures
            r@ == self.schema@,
    {
        self.schema.clone()
    }

    pub fn get_name(&self) -> (r: String)
        ensures
            r@ == self.name@,
    {
        self.name.clone()
    }
}

/// A fastText embedding of source assets.
pub struct FasttextEmbedding {
    pub name: String,
    pub comment: Option<String>,
    pub schema: ConceptRef,
    pub source_assets: Vec<ConceptRef>,
    pub setup: ConceptRef,
    pub tag: Option<String>,
    pub uuid: Option<u128>,
}

impl FasttextEmbedding {
    pub fn get_name(&self) -> (r: String)
        ensures
            r@ == self.name@,
    {
        self.name.clone()
    }
}

/// A raster image asset.
pub struct RasterAsset {
    pub name: String,
    pub comment: Option<String>,
    pub schema: ConceptRef,
    pub setup: ConceptRef,
    pub tag: Option<String>,
    pub uuid: Option<u128>,
}

impl RasterAsset {
    pub fn get_name(&self) -> (r: String)
        ensures
            r@ == self.name@,
    {
        self.name.clone()
    }

    pub fn get_schema(&self) -> (r: ConceptRef)
        ensures
            r@ == self.schema@,
    {
        self.schema.clone()
    }

    pub fn get_storage_setup(&self) -> (r: ConceptRef)
        ensures
            r@ == self.setup@,
    {
        self.setup.clone()
    }
}

/// A table of static data.
pub struct StaticDataTable {
    pub name: String,
    pub setup: ConceptRef,
    pub schema: ConceptRef,
    pub tag: Option<String>,
    pub uuid: Option<u128>,
}

impl StaticDataTable {
    pub fn get_name(&self) -> (r: String)
        ensures
            r@ == self.name@,
    {
        self.name.clone()
    }

    pub fn get_schema(&self) -> (r: ConceptRef)
        ensures
            r@ == self.schema@,
    {
        self.schema.clone()
    }

    pub fn get_storage_setup(&self) -> (r: ConceptRef)
        ensures
            r@ == self.setup@,
    {
        self.setup.clone()
    }
}

/// A model trained by a regression algorithm.
pub struct SupervisedModel {
    pub name: String,
    pub setup: ConceptRef,
    pub schema: ConceptRef,
    pub algorithm: RegressionAlgorithm,
    pub tag: Option<String>,
    pub uuid: Option<u128>,
}

impl SupervisedModel {
    pub fn get_name(&self) -> (r: String)
        ensures
            r@ == self.name@,
    {
        self.name.clone()
    }

    pub fn get_schema(&self) -> (r: ConceptRef)
        ensures
            r@ == self.schema@,
    {
        self.schema.clone()
    }

    pub fn get_storage_setup(&self) -> (r: ConceptRef)
        ensures
            r@ == self.setup@,
    {
        self.setup.clone()
    }
}

/// Marks the enumeration of all constraints.
pub trait ConstraintEnum {
}

/// Ties a constraint type to the concept it is rooted at and to the type
/// that wraps all constraints.
pub trait ConstraintSatisfactionBase {
    type ConstraintType;

    type RootType;

    type Outer;
}

impl DataCompression {
    /// A copy of the compression.
    pub fn duplicate(&self) -> (r: DataCompression)
        ensures
            compression_view(r) == compression_view(*self),
    {
        match self {
            DataCompression::BZip2Compression(c) => DataCompression::BZip2Compression(c.clone()),
            DataCompression::GzipCompression(c) => DataCompression::GzipCompression(c.clone()),
            DataCompression::ZipCompression(c) => DataCompression::ZipCompression(c.clone()),
            DataCompression::LAZCompression(c) => DataCompression::LAZCompression(c.clone()),
        }
    }
}

/// A compression by value: its kind (in declaration order) and the
/// concept that describes it.
pub open spec fn compression_view(c: DataCompression) -> (nat, (u128, Seq<char>)) {
    match c {
        DataCompression::BZip2Compression(r) => (0, r@),
        DataCompression::GzipCompression(r) => (1, r@),
        DataCompression::ZipCompression(r) => (2, r@),
        DataCompression::LAZCompression(r) => (3, r@),
    }
}

pub open spec fn opt_compression_view(c: Option<DataCompression>) -> Option<(nat, (u128, Seq<char>))> {
    match c {
        Some(x) => Some(compression_view(x)),
        None => None,
    }
}

/// Data encoded as comma-separated values, with an optional compression
/// and header.
pub struct CSVEncoding {
    pub compression: Option<DataCompression>,
    pub header: Option<ConceptRef>,
    pub tag: Option<String>,
    pub uuid: Option<u128>,
}

/// Data encoded as JSON.
pub struct JSONEncoding {
    pub tag: Option<String>,
    pub uuid: Option<u128>,
}

/// Data encoded as JSON, one document per line.
pub struct NewlineDelimitedJSONEncoding {
    pub tag: Option<String>,
    pub uuid: Option<u128>,
}

/// An encoding (of a kind whose concept holds only this) with an optional
/// compression.
pub struct CompressedEncoding {
    pub compression: Option<DataCompression>,
    pub tag: Option<String>,
    pub uuid: Option<u128>,
}

/// The encodings of data files.
pub enum Encoding {
    CSVEncoding(CSVEncoding),
    JSONEncoding(JSONEncoding),
    NewlineDelimitedJSONEncoding(NewlineDelimitedJSONEncoding),
    ORCEncoding(ConceptRef),
    TSVEncoding(TSVEncoding),
    ONNXEncoding(ONNXEncoding),
    GDBEncoding(CompressedEncoding),
    LASEncoding(CompressedEncoding),
    SQLiteEncoding(ConceptRef),
    GeoTiffEncoding(CompressedEncoding),
    TiffEncoding(CompressedEncoding),
    WKTEncoding(CompressedEncoding),
    ShapefileEncoding(ConceptRef),
    XMLEncoding(CompressedEncoding),
    KMLEncoding(CompressedEncoding),
    GPKGEncoding(CompressedEncoding),
}

/// The usual file extension of an encoding.
pub open spec fn extension_of(e: Encoding) -> Seq<char> {
    match e {
        Encoding::CSVEncoding(_) => "csv"@,
        Encoding::TSVEncoding(_) => "tsv"@,
        Encoding::GDBEncoding(_) => "gdb"@,
        Encoding::LASEncoding(_) => "las"@,
        Encoding::GeoTiffEncoding(_) => "tiff"@,
        Encoding::TiffEncoding(_) => "tiff"@,
        Encoding::WKTEncoding(_) => "wkt"@,
        Encoding::XMLEncoding(_) => "xml"@,
        Encoding::KMLEncoding(_) => "kml"@,
        Encoding::GPKGEncoding(_) => "gpkg"@,
        Encoding::ShapefileEncoding(_) => "shp"@,
        Encoding::JSONEncoding(_) => "json"@,
        Encoding::ORCEncoding(_) => "orc"@,
        Encoding::ONNXEncoding(_) => "onnx"@,
        Encoding::SQLiteEncoding(_) => "sqlite"@,
        Encoding::NewlineDelimitedJSONEncoding(_) => "json"@,
    }
}

/// The compression of an encoding: that of the CSV, TSV and compressed
/// encodings; none for the others.
pub open spec fn compression_of(e: Encoding) -> Option<DataCompression> {
    match e {
        Encoding::CSVEncoding(x) => x.compression,
        Encoding::TSVEncoding(x) => Some(x.compression),
        Encoding::GDBEncoding(x) => x.compression,
        Encoding::LASEncoding(x) => x.compression,
        Encoding::GeoTiffEncoding(x) => x.compression,
        Encoding::TiffEncoding(x) => x.compression,
        Encoding::WKTEncoding(x) => x.compression,
        Encoding::XMLEncoding(x) => x.compression,
        Encoding::KMLEncoding(x) => x.compression,
        Encoding::GPKGEncoding(x) => x.compression,
        _ => None,
    }
}

fn clone_opt_compression(c: &Option<DataCompression>) -> (r: Option<DataCompression>)
    ensures
        opt_compression_view(r) == opt_compression_view(*c),
{
    match c {
        Some(x) => Some(x.duplicate()),
        None => None,
    }
}

impl Encoding {
    /// The header of the encoding: that of CSV and TSV; none for the others.
    pub fn get_header(&self) -> (r: Option<ConceptRef>)
        ensures
            match self {
                Encoding::CSVEncoding(x) => match x.header {
                    Some(h) => r matches Some(c) && c@ == h@,
                    None => r is None,
                },
                Encoding::TSVEncoding(x) => r matches Some(c) && c@ == x.header@,
                _ => r is None,
            },
    {
        match self {
            Encoding::CSVEncoding(x) => match &x.header {
                Some(h) => Some(h.clone()),
                None => None,
            },
            Encoding::TSVEncoding(x) => Some(x.header.clone()),
            _ => None,
        }
    }

    /// The compression of the encoding (see `compression_of`).
    pub fn get_compression(&self) -> (r: Option<DataCompression>)
        ensures
            opt_compression_view(r) == opt_compression_view(compression_of(*self)),
    {
        match self {
            Encoding::CSVEncoding(x) => clone_opt_compression(&x.compression),
            Encoding::TSVEncoding(x) => Some(x.compression.duplicate()),
            Encoding::GDBEncoding(x) => clone_opt_compression(&x.compression),
            Encoding::LASEncoding(x) => clone_opt_compression(&x.compression),
            Encoding::GeoTiffEncoding(x) => clone_opt_compression(&x.compression),
            Encoding::TiffEncoding(x) => clone_opt_compression(&x.compression),
            Encoding::WKTEncoding(x) => clone_opt_compression(&x.compression),
            Encoding::XMLEncoding(x) => clone_opt_compression(&x.compression),
            Encoding::KMLEncoding(x) => clone_opt_compression(&x.compression),
            Encoding::GPKGEncoding(x) => clone_opt_compression(&x.compression),
            _ => None,
        }
    }

    /// The usual file extension of the encoding (see `extension_of`).
    pub fn get_default_file_extension(&self) -> (r: String)
        ensures
            r@ == extension_of(*self),
    {
        match self {
            Encoding::CSVEncoding(_) => crate::strings::string_of("csv"),
            Encoding::TSVEncoding(_) => crate::strings::string_of("tsv"),
            Encoding::GDBEncoding(_) => crate::strings::string_of("gdb"),
            Encoding::LASEncoding(_) => crate::strings::string_of("las"),
            Encoding::GeoTiffEncoding(_) => crate::strings::string_of("tiff"),
            Encoding::TiffEncoding(_) => crate::strings::string_of("tiff"),
            Encoding::WKTEncoding(_) => crate::strings::string_of("wkt"),
            Encoding::XMLEncoding(_) => crate::strings::string_of("xml"),
            Encoding::KMLEncoding(_) => crate::strings::string_of("kml"),
            Encoding::GPKGEncoding(_) => crate::strings::string_of("gpkg"),
            Encoding::ShapefileEncoding(_) => crate::strings::string_of("shp"),
            Encoding::JSONEncoding(_) => crate::strings::string_of("json"),
            Encoding::ORCEncoding(_) => crate::strings::string_of("orc"),
            Encoding::ONNXEncoding(_) => crate::strings::string_of("onnx"),
            Encoding::SQLiteEncoding(_) => crate::strings::string_of("sqlite"),
            Encoding::NewlineDelimitedJSONEncoding(_) => crate::strings::string_of("json"),
        }
    }
}

} // verus!
