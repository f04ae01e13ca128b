//! The native-function tables of the standard-library modules: for each
//! module, the names under which its functions are registered, in order, each
//! paired with the function it stands for.

use vstd::prelude::*;

verus! {

/// The functions of भारत.मात्रक — physical quantities with units.
#[derive(Clone, Copy, PartialEq, Eq, Structural, Debug)]
pub enum MatrakFn {
    Matra,
    JodMatra,
    GhataMatra,
    GunaMatra,
    BhagMatra,
    MaanMein,
    MatraVakya,
    VimaBarabar,
}

/// The registration table of भारत.मात्रक.
pub open spec fn matrak_table() -> Seq<(Seq<char>, MatrakFn)> {
    seq![
        ("मात्रा"@, MatrakFn::Matra),
        ("जोड़_मात्रा"@, MatrakFn::JodMatra),
        ("घटा_मात्रा"@, MatrakFn::GhataMatra),
        ("गुणा_मात्रा"@, MatrakFn::GunaMatra),
        ("भाग_मात्रा"@, MatrakFn::BhagMatra),
        ("मान_में"@, MatrakFn::MaanMein),
        ("मात्रा_वाक्य"@, MatrakFn::MatraVakya),
        ("विमा_बराबर"@, MatrakFn::VimaBarabar),
    ]
}

/// The functions of भारत.मात्रक — physical quantities with units under their registered names.
pub fn matrak_registry() -> (r: Vec<(&'static str, MatrakFn)>)
    ensures
        r@.map_values(|e: (&'static str, MatrakFn)| (e.0@, e.1)) == matrak_table(),
{
    let r = vec![
        ("मात्रा", MatrakFn::Matra),
        ("जोड़_मात्रा", MatrakFn::JodMatra),
        ("घटा_मात्रा", MatrakFn::GhataMatra),
        ("गुणा_मात्रा", MatrakFn::GunaMatra),
        ("भाग_मात्रा", MatrakFn::BhagMatra),
        ("मान_में", MatrakFn::MaanMein),
        ("मात्रा_वाक्य", MatrakFn::MatraVakya),
        ("विमा_बराबर", MatrakFn::VimaBarabar),
    ];
    assert(r@.map_values(|e: (&'static str, MatrakFn)| (e.0@, e.1)) =~= matrak_table());
    r
}

/// The functions of भारत.संजाल — TCP sockets.
#[derive(Clone, Copy, PartialEq, Eq, Structural, Debug)]
pub enum SanjaalFn {
    NetConnect,
    NetListen,
    NetAccept,
    NetSend,
    NetRecv,
    NetClose,
}

/// The registration table of भारत.संजाल.
pub open spec fn sanjaal_table() -> Seq<(Seq<char>, SanjaalFn)> {
    seq![
        ("सॉकेट_जोड़ो"@, SanjaalFn::NetConnect),
        ("सॉकेट_सुनो"@, SanjaalFn::NetListen),
        ("सॉकेट_स्वीकारो"@, SanjaalFn::NetAccept),
        ("सॉकेट_भेजो"@, SanjaalFn::NetSend),
        ("सॉकेट_पढ़ो"@, SanjaalFn::NetRecv),
        ("सॉकेट_बंद"@, SanjaalFn::NetClose),
    ]
}

/// The functions of भारत.संजाल — TCP sockets under their registered names.
pub fn sanjaal_registry() -> (r: Vec<(&'static str, SanjaalFn)>)
    ensures
        r@.map_values(|e: (&'static str, SanjaalFn)| (e.0@, e.1)) == sanjaal_table(),
{
    let r = vec![
        ("सॉकेट_जोड़ो", SanjaalFn::NetConnect),
        ("सॉकेट_सुनो", SanjaalFn::NetListen),
        ("सॉकेट_स्वीकारो", SanjaalFn::NetAccept),
        ("सॉकेट_भेजो", SanjaalFn::NetSend),
        ("सॉकेट_पढ़ो", SanjaalFn::NetRecv),
        ("सॉकेट_बंद", SanjaalFn::NetClose),
    ];
    assert(r@.map_values(|e: (&'static str, SanjaalFn)| (e.0@, e.1)) =~= sanjaal_table());
    r
}

/// The functions of भारत.नियंत्रण — PID and Kalman control.
#[derive(Clone, Copy, PartialEq, Eq, Structural, Debug)]
pub enum NiyantranFn {
    PidBanao,
    PidCharan,
    KalmanBanao,
    KalmanCharan,
    KalmanNdBanao,
    KalmanNdCharan,
}

/// The registration table of भारत.नियंत्रण.
pub open spec fn niyantran_table() -> Seq<(Seq<char>, NiyantranFn)> {
    seq![
        ("पीआईडी_बनाओ"@, NiyantranFn::PidBanao),
        ("पीआईडी_चरण"@, NiyantranFn::PidCharan),
        ("कलमैन_बनाओ"@, NiyantranFn::KalmanBanao),
        ("कलमैन_चरण"@, NiyantranFn::KalmanCharan),
        ("कलमैन_एनडी_बनाओ"@, NiyantranFn::KalmanNdBanao),
        ("कलमैन_एनडी_चरण"@, NiyantranFn::KalmanNdCharan),
    ]
}

/// The functions of भारत.नियंत्रण — PID and Kalman control under their registered names.
pub fn niyantran_registry() -> (r: Vec<(&'static str, NiyantranFn)>)
    ensures
        r@.map_values(|e: (&'static str, NiyantranFn)| (e.0@, e.1)) == niyantran_table(),
{
    let r = vec![
        ("पीआईडी_बनाओ", NiyantranFn::PidBanao),
        ("पीआईडी_चरण", NiyantranFn::PidCharan),
        ("कलमैन_बनाओ", NiyantranFn::KalmanBanao),
        ("कलमैन_चरण", NiyantranFn::KalmanCharan),
        ("कलमैन_एनडी_बनाओ", NiyantranFn::KalmanNdBanao),
        ("कलमैन_एनडी_चरण", NiyantranFn::KalmanNdCharan),
    ];
    assert(r@.map_values(|e: (&'static str, NiyantranFn)| (e.0@, e.1)) =~= niyantran_table());
    r
}

/// The functions of भारत.प्रतिमान — regular expressions.
#[derive(Clone, Copy, PartialEq, Eq, Structural, Debug)]
pub enum PratimaanFn {
    FnDhundho,
    FnDhundhoSthan,
    FnDhundhoSab,
    FnMelHai,
    FnSamuh,
    FnBadloSab,
    FnVibhajitSab,
}

/// The registration table of भारत.प्रतिमान.
pub open spec fn pratimaan_table() -> Seq<(Seq<char>, PratimaanFn)> {
    seq![
        ("ढूंढो"@, PratimaanFn::FnDhundho),
        ("ढूंढो_स्थान"@, PratimaanFn::FnDhundhoSthan),
        ("ढूंढो_सब"@, PratimaanFn::FnDhundhoSab),
        ("मेल_है"@, PratimaanFn::FnMelHai),
        ("समूह"@, PratimaanFn::FnSamuh),
        ("बदलो_सब"@, PratimaanFn::FnBadloSab),
        ("विभाजित_सब"@, PratimaanFn::FnVibhajitSab),
    ]
}

/// The functions of भारत.प्रतिमान — regular expressions under their registered names.
pub fn pratimaan_registry() -> (r: Vec<(&'static str, PratimaanFn)>)
    ensures
        r@.map_values(|e: (&'static str, PratimaanFn)| (e.0@, e.1)) == pratimaan_table(),
{
    let r = vec![
        ("ढूंढो", PratimaanFn::FnDhundho),
        ("ढूंढो_स्थान", PratimaanFn::FnDhundhoSthan),
        ("ढूंढो_सब", PratimaanFn::FnDhundhoSab),
        ("मेल_है", PratimaanFn::FnMelHai),
        ("समूह", PratimaanFn::FnSamuh),
        ("बदलो_सब", PratimaanFn::FnBadloSab),
        ("विभाजित_सब", PratimaanFn::FnVibhajitSab),
    ];
    assert(r@.map_values(|e: (&'static str, PratimaanFn)| (e.0@, e.1)) =~= pratimaan_table());
    r
}

/// The functions of भारत.रेखीय — vectors, matrices and quaternions.
#[derive(Clone, Copy, PartialEq, Eq, Structural, Debug)]
pub enum RekhiyFn {
    SadishYog,
    SadishGhata,
    AdishGunan,
    BinduGunan,
    KonGunan,
    Parimaan,
    Samanya,
    Doori,
    AavyuhGunan,
    Parivart,
    AavyuhSadish,
    Tatsamak,
    Saaranik,
    Pratilom,
    ChatushkGunan,
    ChatushkSamanya,
    KonSeChatushk,
    ChatushkSeKon,
    ChatushkGhumaav,
    ChatushkPrakshep,
}

/// The registration table of भारत.रेखीय.
pub open spec fn rekhiy_table() -> Seq<(Seq<char>, RekhiyFn)> {
    seq![
        ("सदिश_योग"@, RekhiyFn::SadishYog),
        ("सदिश_घटा"@, RekhiyFn::SadishGhata),
        ("अदिश_गुणन"@, RekhiyFn::AdishGunan),
        ("बिंदु_गुणन"@, RekhiyFn::BinduGunan),
        ("कोण_गुणन"@, RekhiyFn::KonGunan),
        ("परिमाण"@, RekhiyFn::Parimaan),
        ("सामान्य"@, RekhiyFn::Samanya),
        ("दूरी"@, RekhiyFn::Doori),
        ("आव्यूह_गुणन"@, RekhiyFn::AavyuhGunan),
        ("परिवर्त"@, RekhiyFn::Parivart),
        ("आव्यूह_सदिश"@, RekhiyFn::AavyuhSadish),
        ("तत्समक"@, RekhiyFn::Tatsamak),
        ("सारणिक"@, RekhiyFn::Saaranik),
        ("प्रतिलोम"@, RekhiyFn::Pratilom),
        ("चतुष्क_गुणन"@, RekhiyFn::ChatushkGunan),
        ("चतुष्क_सामान्य"@, RekhiyFn::ChatushkSamanya),
        ("कोण_से_चतुष्क"@, RekhiyFn::KonSeChatushk),
        ("चतुष्क_से_कोण"@, RekhiyFn::ChatushkSeKon),
        ("चतुष्क_घुमाव"@, RekhiyFn::ChatushkGhumaav),
        ("चतुष्क_प्रक्षेप"@, RekhiyFn::ChatushkPrakshep),
    ]
}

/// The functions of भारत.रेखीय — vectors, matrices and quaternions under their registered names.
pub fn rekhiy_registry() -> (r: Vec<(&'static str, RekhiyFn)>)
    ensures
        r@.map_values(|e: (&'static str, RekhiyFn)| (e.0@, e.1)) == rekhiy_table(),
{
    let r = vec![
        ("सदिश_योग", RekhiyFn::SadishYog),
        ("सदिश_घटा", RekhiyFn::SadishGhata),
        ("अदिश_गुणन", RekhiyFn::AdishGunan),
        ("बिंदु_गुणन", RekhiyFn::BinduGunan),
        ("कोण_गुणन", RekhiyFn::KonGunan),
        ("परिमाण", RekhiyFn::Parimaan),
        ("सामान्य", RekhiyFn::Samanya),
        ("दूरी", RekhiyFn::Doori),
        ("आव्यूह_गुणन", RekhiyFn::AavyuhGunan),
        ("परिवर्त", RekhiyFn::Parivart),
        ("आव्यूह_सदिश", RekhiyFn::AavyuhSadish),
        ("तत्समक", RekhiyFn::Tatsamak),
        ("सारणिक", RekhiyFn::Saaranik),
        ("प्रतिलोम", RekhiyFn::Pratilom),
        ("चतुष्क_गुणन", RekhiyFn::ChatushkGunan),
        ("चतुष्क_सामान्य", RekhiyFn::ChatushkSamanya),
        ("कोण_से_चतुष्क", RekhiyFn::KonSeChatushk),
        ("चतुष्क_से_कोण", RekhiyFn::ChatushkSeKon),
        ("चतुष्क_घुमाव", RekhiyFn::ChatushkGhumaav),
        ("चतुष्क_प्रक्षेप", RekhiyFn::ChatushkPrakshep),
    ];
    assert(r@.map_values(|e: (&'static str, RekhiyFn)| (e.0@, e.1)) =~= rekhiy_table());
    r
}

/// The functions of भारत.सर्वर — HTTP server.
#[derive(Clone, Copy, PartialEq, Eq, Structural, Debug)]
pub enum SarvarFn {
    ServerCreate,
    ServerRoute,
    ServerRun,
}

/// The registration table of भारत.सर्वर.
pub open spec fn sarvar_table() -> Seq<(Seq<char>, SarvarFn)> {
    seq![
        ("सर्वर_बनाओ"@, SarvarFn::ServerCreate),
        ("सर्वर_मार्ग"@, SarvarFn::ServerRoute),
        ("सर्वर_चलाओ"@, SarvarFn::ServerRun),
    ]
}

/// The functions of भारत.सर्वर — HTTP server under their registered names.
pub fn sarvar_registry() -> (r: Vec<(&'static str, SarvarFn)>)
    ensures
        r@.map_values(|e: (&'static str, SarvarFn)| (e.0@, e.1)) == sarvar_table(),
{
    let r = vec![
        ("सर्वर_बनाओ", SarvarFn::ServerCreate),
        ("सर्वर_मार्ग", SarvarFn::ServerRoute),
        ("सर्वर_चलाओ", SarvarFn::ServerRun),
    ];
    assert(r@.map_values(|e: (&'static str, SarvarFn)| (e.0@, e.1)) =~= sarvar_table());
    r
}

/// The functions of भारत.संग्रह — in-memory SQL database.
#[derive(Clone, Copy, PartialEq, Eq, Structural, Debug)]
pub enum SangrahaFn {
    DbNaya,
    DbChalao,
    DbSahejo,
    DbKholo,
    DbBand,
}

/// The registration table of भारत.संग्रह.
pub open spec fn sangraha_table() -> Seq<(Seq<char>, SangrahaFn)> {
    seq![
        ("db_नया"@, SangrahaFn::DbNaya),
        ("db_चलाओ"@, SangrahaFn::DbChalao),
        ("db_सहेजो"@, SangrahaFn::DbSahejo),
        ("db_खोलो"@, SangrahaFn::DbKholo),
        ("db_बंद"@, SangrahaFn::DbBand),
    ]
}

/// The functions of भारत.संग्रह — in-memory SQL database under their registered names.
pub fn sangraha_registry() -> (r: Vec<(&'static str, SangrahaFn)>)
    ensures
        r@.map_values(|e: (&'static str, SangrahaFn)| (e.0@, e.1)) == sangraha_table(),
{
    let r = vec![
        ("db_नया", SangrahaFn::DbNaya),
        ("db_चलाओ", SangrahaFn::DbChalao),
        ("db_सहेजो", SangrahaFn::DbSahejo),
        ("db_खोलो", SangrahaFn::DbKholo),
        ("db_बंद", SangrahaFn::DbBand),
    ];
    assert(r@.map_values(|e: (&'static str, SangrahaFn)| (e.0@, e.1)) =~= sangraha_table());
    r
}

/// The functions of भारत.सुरक्षा — fault tolerance.
#[derive(Clone, Copy, PartialEq, Eq, Structural, Debug)]
pub enum SurakshaFn {
    HammingKoot,
    HammingVikod,
    Crc32,
    Bahumat,
    SamaySeemaJaanch,
}

/// The registration table of भारत.सुरक्षा.
pub open spec fn suraksha_table() -> Seq<(Seq<char>, SurakshaFn)> {
    seq![
        ("हैमिंग_कूट"@, SurakshaFn::HammingKoot),
        ("हैमिंग_विकोड"@, SurakshaFn::HammingVikod),
        ("सीआरसी32"@, SurakshaFn::Crc32),
        ("बहुमत"@, SurakshaFn::Bahumat),
        ("समय_सीमा_जाँच"@, SurakshaFn::SamaySeemaJaanch),
    ]
}

/// The functions of भारत.सुरक्षा — fault tolerance under their registered names.
pub fn suraksha_registry() -> (r: Vec<(&'static str, SurakshaFn)>)
    ensures
        r@.map_values(|e: (&'static str, SurakshaFn)| (e.0@, e.1)) == suraksha_table(),
{
    let r = vec![
        ("हैमिंग_कूट", SurakshaFn::HammingKoot),
        ("हैमिंग_विकोड", SurakshaFn::HammingVikod),
        ("सीआरसी32", SurakshaFn::Crc32),
        ("बहुमत", SurakshaFn::Bahumat),
        ("समय_सीमा_जाँच", SurakshaFn::SamaySeemaJaanch),
    ];
    assert(r@.map_values(|e: (&'static str, SurakshaFn)| (e.0@, e.1)) =~= suraksha_table());
    r
}

/// The functions of भारत.तंत्र — raw memory.
#[derive(Clone, Copy, PartialEq, Eq, Structural, Debug)]
pub enum TantraFn {
    MemAlloc,
    MemFree,
    MemSize,
    MemWriteByte,
    MemReadByte,
    MemWriteInt,
    MemReadInt,
    MemWriteFloat,
    MemReadFloat,
    MemWriteStr,
    MemCstr,
    RawRead,
    RawWrite,
    RawRead32,
    RawWrite32,
}

/// The registration table of भारत.तंत्र.
pub open spec fn tantra_table() -> Seq<(Seq<char>, TantraFn)> {
    seq![
        ("स्मृति_आवंटन"@, TantraFn::MemAlloc),
        ("स्मृति_मुक्त"@, TantraFn::MemFree),
        ("स्मृति_आकार"@, TantraFn::MemSize),
        ("स्मृति_लिखो_बाइट"@, TantraFn::MemWriteByte),
        ("स्मृति_पढ़ो_बाइट"@, TantraFn::MemReadByte),
        ("स्मृति_लिखो_पूर्ण"@, TantraFn::MemWriteInt),
        ("स्मृति_पढ़ो_पूर्ण"@, TantraFn::MemReadInt),
        ("स्मृति_लिखो_दशमलव"@, TantraFn::MemWriteFloat),
        ("स्मृति_पढ़ो_दशमलव"@, TantraFn::MemReadFloat),
        ("स्मृति_लिखो_वाक्य"@, TantraFn::MemWriteStr),
        ("स्मृति_वाक्य"@, TantraFn::MemCstr),
        ("कच्चा_पढ़ो"@, TantraFn::RawRead),
        ("कच्चा_लिखो"@, TantraFn::RawWrite),
        ("कच्चा_पढ़ो३२"@, TantraFn::RawRead32),
        ("कच्चा_लिखो३२"@, TantraFn::RawWrite32),
    ]
}

/// The functions of भारत.तंत्र — raw memory under their registered names.
pub fn tantra_registry() -> (r: Vec<(&'static str, TantraFn)>)
    ensures
        r@.map_values(|e: (&'static str, TantraFn)| (e.0@, e.1)) == tantra_table(),
{
    let r = vec![
        ("स्मृति_आवंटन", TantraFn::MemAlloc),
        ("स्मृति_मुक्त", TantraFn::MemFree),
        ("स्मृति_आकार", TantraFn::MemSize),
        ("स्मृति_लिखो_बाइट", TantraFn::MemWriteByte),
        ("स्मृति_पढ़ो_बाइट", TantraFn::MemReadByte),
        ("स्मृति_लिखो_पूर्ण", TantraFn::MemWriteInt),
        ("स्मृति_पढ़ो_पूर्ण", TantraFn::MemReadInt),
        ("स्मृति_लिखो_दशमलव", TantraFn::MemWriteFloat),
        ("स्मृति_पढ़ो_दशमलव", TantraFn::MemReadFloat),
        ("स्मृति_लिखो_वाक्य", TantraFn::MemWriteStr),
        ("स्मृति_वाक्य", TantraFn::MemCstr),
        ("कच्चा_पढ़ो", TantraFn::RawRead),
        ("कच्चा_लिखो", TantraFn::RawWrite),
        ("कच्चा_पढ़ो३२", TantraFn::RawRead32),
        ("कच्चा_लिखो३२", TantraFn::RawWrite32),
    ];
    assert(r@.map_values(|e: (&'static str, TantraFn)| (e.0@, e.1)) =~= tantra_table());
    r
}

/// The functions of भारत.सूत्र — parallel map.
#[derive(Clone, Copy, PartialEq, Eq, Structural, Debug)]
pub enum SutraFn {
    Samanantar,
    SutraGanana,
}

/// The registration table of भारत.सूत्र.
pub open spec fn sutra_table() -> Seq<(Seq<char>, SutraFn)> {
    seq![
        ("समानांतर"@, SutraFn::Samanantar),
        ("सूत्र_गणना"@, SutraFn::SutraGanana),
    ]
}

/// The functions of भारत.सूत्र — parallel map under their registered names.
pub fn sutra_registry() -> (r: Vec<(&'static str, SutraFn)>)
    ensures
        r@.map_values(|e: (&'static str, SutraFn)| (e.0@, e.1)) == sutra_table(),
{
    let r = vec![
        ("समानांतर", SutraFn::Samanantar),
        ("सूत्र_गणना", SutraFn::SutraGanana),
    ];
    assert(r@.map_values(|e: (&'static str, SutraFn)| (e.0@, e.1)) =~= sutra_table());
    r
}

/// The functions of TOML and INI reading.
#[derive(Clone, Copy, PartialEq, Eq, Structural, Debug)]
pub enum TomlFn {
    TomlRead,
    IniRead,
}

/// The registration table of TOML and INI reading.
pub open spec fn toml_table() -> Seq<(Seq<char>, TomlFn)> {
    seq![
        ("toml_पढ़ो"@, TomlFn::TomlRead),
        ("ini_पढ़ो"@, TomlFn::IniRead),
    ]
}

/// The functions of TOML and INI reading under their registered names.
pub fn toml_registry() -> (r: Vec<(&'static str, TomlFn)>)
    ensures
        r@.map_values(|e: (&'static str, TomlFn)| (e.0@, e.1)) == toml_table(),
{
    let r = vec![
        ("toml_पढ़ो", TomlFn::TomlRead),
        ("ini_पढ़ो", TomlFn::IniRead),
    ];
    assert(r@.map_values(|e: (&'static str, TomlFn)| (e.0@, e.1)) =~= toml_table());
    r
}

/// The functions of XML reading.
#[derive(Clone, Copy, PartialEq, Eq, Structural, Debug)]
pub enum XmlFn {
    XmlRead,
}

/// The registration table of XML reading.
pub open spec fn xml_table() -> Seq<(Seq<char>, XmlFn)> {
    seq![
        ("xml_पढ़ो"@, XmlFn::XmlRead),
    ]
}

/// The functions of XML reading under their registered names.
pub fn xml_registry() -> (r: Vec<(&'static str, XmlFn)>)
    ensures
        r@.map_values(|e: (&'static str, XmlFn)| (e.0@, e.1)) == xml_table(),
{
    let r = vec![
        ("xml_पढ़ो", XmlFn::XmlRead),
    ];
    assert(r@.map_values(|e: (&'static str, XmlFn)| (e.0@, e.1)) =~= xml_table());
    r
}

/// The functions of YAML reading.
#[derive(Clone, Copy, PartialEq, Eq, Structural, Debug)]
pub enum YamlFn {
    YamlRead,
}

/// The registration table of YAML reading.
pub open spec fn yaml_table() -> Seq<(Seq<char>, YamlFn)> {
    seq![
        ("यामल_पढ़ो"@, YamlFn::YamlRead),
    ]
}

/// The functions of YAML reading under their registered names.
pub fn yaml_registry() -> (r: Vec<(&'static str, YamlFn)>)
    ensures
        r@.map_values(|e: (&'static str, YamlFn)| (e.0@, e.1)) == yaml_table(),
{
    let r = vec![
        ("यामल_पढ़ो", YamlFn::YamlRead),
    ];
    assert(r@.map_values(|e: (&'static str, YamlFn)| (e.0@, e.1)) =~= yaml_table());
    r
}

/// The functions of भारत.संपीडन — ZIP archives.
#[derive(Clone, Copy, PartialEq, Eq, Structural, Debug)]
pub enum SampidanFn {
    ZipLikho,
    ZipPadho,
    ZipSuchi,
}

/// The registration table of भारत.संपीडन.
pub open spec fn sampidan_table() -> Seq<(Seq<char>, SampidanFn)> {
    seq![
        ("ज़िप_लिखो"@, SampidanFn::ZipLikho),
        ("ज़िप_पढ़ो"@, SampidanFn::ZipPadho),
        ("ज़िप_सूची"@, SampidanFn::ZipSuchi),
    ]
}

/// The functions of भारत.संपीडन — ZIP archives under their registered names.
pub fn sampidan_registry() -> (r: Vec<(&'static str, SampidanFn)>)
    ensures
        r@.map_values(|e: (&'static str, SampidanFn)| (e.0@, e.1)) == sampidan_table(),
{
    let r = vec![
        ("ज़िप_लिखो", SampidanFn::ZipLikho),
        ("ज़िप_पढ़ो", SampidanFn::ZipPadho),
        ("ज़िप_सूची", SampidanFn::ZipSuchi),
    ];
    assert(r@.map_values(|e: (&'static str, SampidanFn)| (e.0@, e.1)) =~= sampidan_table());
    r
}

} // verus!
