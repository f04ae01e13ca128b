//! Roman-script keyword preprocessor: source written with Roman spellings of
//! the keywords (`batao`, `yadi`, `anyatha yadi`, ...) becomes Devanagari
//! source. Only whole words are replaced; string literals and comments are
//! kept verbatim; keyword matching ignores ASCII case; longer phrases are
//! listed before their prefixes, and the first match in table order wins.

use vstd::prelude::*;
use crate::text::{char_is_alphanumeric, spec_is_alphanumeric, is_ascii_alpha,
    is_ascii_alpha_spec, to_ascii_lower, to_ascii_lower_spec, str_chars, push_char,
    push_str, push_chars};

verus! {

/// Number of entries in the keyword table.
pub const KW_COUNT: usize = 182;

/// The keyword table: entry `k` is (Roman spelling, Devanagari keyword).
pub open spec fn kw_spec(k: usize) -> (Seq<char>, Seq<char>) {
    match k {
        0 => ("anyatha yadi"@, "अन्यथा यदि"@),
        1 => ("jab tak"@, "जब तक"@),
        2 => ("ke liye"@, "के लिए"@),
        3 => ("bar karo"@, "बार करो"@),
        4 => ("band karo"@, "बंद करो"@),
        5 => ("se adhik"@, "से अधिक"@),
        6 => ("se kam"@, "से कम"@),
        7 => ("bharat.ganit"@, "भारत.गणित"@),
        8 => ("bharat.sankhya"@, "भारत.संख्या"@),
        9 => ("bharat.pehchaan"@, "भारत.पहचान"@),
        10 => ("bharat.bhugtaan"@, "भारत.भुगतान"@),
        11 => ("bharat.bhasha"@, "भारत.भाषा"@),
        12 => ("brahmaguptha_kshetra"@, "ब्रह्मगुप्त_क्षेत्र"@),
        13 => ("heron_kshetra"@, "हेरॉन_क्षेत्र"@),
        14 => ("laghuganak_das"@, "लघुगणक_दस"@),
        15 => ("vyutkram_sparshjya"@, "व्युत्क्रम_स्पर्श"@),
        16 => ("vyutkram_kojya"@, "व्युत्क्रम_कोज्या"@),
        17 => ("vyutkram_jya"@, "व्युत्क्रम_ज्या"@),
        18 => ("bharat vyakaran"@, "भारत.व्याकरण"@),
        19 => ("bharat vigyan"@, "भारत.विज्ञान"@),
        20 => ("guru laghu"@, "गुरु_लघु_संकेत"@),
        21 => ("sandhi prakar"@, "संधि_प्रकार"@),
        22 => ("samas prakar"@, "समास_प्रकार"@),
        23 => ("shiva sutra"@, "शिव_सूत्र"@),
        24 => ("chhand sthan"@, "छन्द_स्थान"@),
        25 => ("matra bhar"@, "मात्रा_भार"@),
        26 => ("ras sutra"@, "रस_सूत्र"@),
        27 => ("aryabhat pai"@, "आर्यभट_पाई"@),
        28 => ("nakshatra sankhya"@, "नक्षत्र_संख्या"@),
        29 => ("tithi sankhya"@, "तिथि_संख्या"@),
        30 => ("yug varsh"@, "युग_वर्ष"@),
        31 => ("batao"@, "बताओ"@),
        32 => ("likho"@, "लिखो"@),
        33 => ("anyatha"@, "अन्यथा"@),
        34 => ("yadi"@, "यदि"@),
        35 => ("toh"@, "तो"@),
        36 => ("vidhi"@, "विधि"@),
        37 => ("phal"@, "फल"@),
        38 => ("satya"@, "सत्य"@),
        39 => ("asatya"@, "असत्य"@),
        40 => ("nahin"@, "नहीं"@),
        41 => ("vaishvik"@, "वैश्विक"@),
        42 => ("lamda"@, "लाम्डा"@),
        43 => ("agla"@, "अगला"@),
        44 => ("barabar"@, "बराबर"@),
        45 => ("aayat"@, "आयात"@),
        46 => ("koshish"@, "कोशिश"@),
        47 => ("pakdo"@, "पकड़ो"@),
        48 => ("truti"@, "त्रुटि"@),
        49 => ("banao"@, "बनाओ"@),
        50 => ("mein"@, "में"@),
        51 => ("hai"@, "है"@),
        52 => ("yah"@, "यह"@),
        53 => ("aur"@, "और"@),
        54 => ("swaroop"@, "स्वरूप"@),
        55 => ("purnanks"@, "पूर्णांक"@),
        56 => ("vargmool"@, "वर्गमूल"@),
        57 => ("nirapeksh"@, "निरपेक्ष"@),
        58 => ("manchitra"@, "मानचित्र"@),
        59 => ("chhano"@, "छानो"@),
        60 => ("modo"@, "मोड़ो"@),
        61 => ("lambai"@, "लम्बाई"@),
        62 => ("joodo"@, "जोड़ो"@),
        63 => ("hatao"@, "हटाओ"@),
        64 => ("ulta"@, "उलटा"@),
        65 => ("krambaddh"@, "क्रमबद्ध"@),
        66 => ("milao"@, "मिलाओ"@),
        67 => ("shuru_mein"@, "शुरू_में"@),
        68 => ("ant_mein"@, "अंत_में"@),
        69 => ("khojo"@, "खोजो"@),
        70 => ("vibhajit"@, "विभाजित"@),
        71 => ("badlo"@, "बदलो"@),
        72 => ("yadrichhik"@, "यादृच्छिक"@),
        73 => ("nirgam"@, "निर्गम"@),
        74 => ("ghataank"@, "घातांक"@),
        75 => ("ghaat"@, "घात"@),
        76 => ("padho"@, "पढ़ो"@),
        77 => ("vakya"@, "वाक्य"@),
        78 => ("prakar"@, "प्रकार"@),
        79 => ("laghuganak"@, "लघुगणक"@),
        80 => ("gol"@, "गोल"@),
        81 => ("pai"@, "पाई"@),
        82 => ("anant"@, "अनंत"@),
        83 => ("sparshjya"@, "स्पर्शज्या"@),
        84 => ("kojya"@, "कोज्या"@),
        85 => ("jya"@, "ज्या"@),
        86 => ("virahank"@, "विरहांक"@),
        87 => ("sanyojan"@, "संयोजन"@),
        88 => ("kramchay"@, "क्रमचय"@),
        89 => ("suchi"@, "सूची"@),
        90 => ("kosh"@, "कोश"@),
        91 => ("varg"@, "वर्ग"@),
        92 => ("meru_pankti"@, "मेरु_पंक्ति"@),
        93 => ("brahmagupat_antar"@, "ब्रह्मगुप्त_अंतर"@),
        94 => ("shridhar_sutra"@, "श्रीधर_सूत्र"@),
        95 => ("bakshali_mul"@, "बखशाली_मूल"@),
        96 => ("mahavir_bhinn"@, "महावीर_भिन्न"@),
        97 => ("aryabhat_yog"@, "आर्यभट_योग"@),
        98 => ("varga_yog"@, "वर्ग_योग"@),
        99 => ("ghana_yog"@, "घन_योग"@),
        100 => ("nakshatra_naam"@, "नक्षत्र_नाम"@),
        101 => ("nakshatra_kram"@, "नक्षत्र_क्रम"@),
        102 => ("tithi_naam"@, "तिथि_नाम"@),
        103 => ("yug_naam"@, "युग_नाम"@),
        104 => ("graha_kram"@, "ग्रह_क्रम"@),
        105 => ("sabhi_nakshatra"@, "सभी_नक्षत्र"@),
        106 => ("ras_naam"@, "रस_नाम"@),
        107 => ("ras_bhav"@, "रस_भाव"@),
        108 => ("ras_vivaran"@, "रस_विवरण"@),
        109 => ("sabhi_ras"@, "सभी_रस"@),
        110 => ("sttar_banao"@, "स्तर_बनाओ"@),
        111 => ("aage_paas"@, "आगे_पास"@),
        112 => ("jal_aage"@, "जाल_आगे"@),
        113 => ("truti_varg_avkal"@, "त्रुटि_वर्ग_अवकल"@),
        114 => ("truti_varg"@, "त्रुटि_वर्ग"@),
        115 => ("dhal_avaroh"@, "ढाल_अवरोह"@),
        116 => ("adam_charan"@, "आदम_चरण"@),
        117 => ("dhal_sankhyik"@, "ढाल_संख्यिक"@),
        118 => ("sikhne_ki_dar"@, "सीखने_की_दर"@),
        119 => ("rekhiy_pratigraman"@, "रेखीय_प्रतिगमन"@),
        120 => ("bhavisyavani"@, "भविष्यवाणी"@),
        121 => ("sahsambandh"@, "सहसम्बन्ध"@),
        122 => ("ka_sadhan"@, "क_साधन"@),
        123 => ("nikattam_padosi"@, "निकटतम_पड़ोसी"@),
        124 => ("turing_chalao"@, "तुरिंग_चलाओ"@),
        125 => ("turing_siddh"@, "तुरिंग_सिद्ध"@),
        126 => ("yantra_banao"@, "यंत्र_बनाओ"@),
        127 => ("yantra_chalao"@, "यंत्र_चलाओ"@),
        128 => ("yantra_sthiti"@, "यंत्र_स्थिति"@),
        129 => ("niyam_jodo"@, "नियम_जोड़ो"@),
        130 => ("purush_banao"@, "पुरुष_बनाओ"@),
        131 => ("purush_socho"@, "पुरुष_सोचो"@),
        132 => ("kuttak"@, "कुट्टक"@),
        133 => ("nashtam"@, "नष्टम"@),
        134 => ("uddiisht"@, "उद्दिष्ट"@),
        135 => ("prastaar"@, "प्रस्तार"@),
        136 => ("dvi_aadhaar"@, "द्विआधार"@),
        137 => ("anumaan"@, "अनुमान"@),
        138 => ("vyaapti"@, "व्याप्ति"@),
        139 => ("hetvabhaas"@, "हेत्वाभास"@),
        140 => ("pramaan"@, "प्रमाण"@),
        141 => ("karna"@, "कर्ण"@),
        142 => ("shulba_mul"@, "शुल्ब_मूल"@),
        143 => ("vrtta_varg"@, "वृत्त_वर्ग"@),
        144 => ("varg_vrtta"@, "वर्ग_वृत्त"@),
        145 => ("madhyika"@, "माध्यिका"@),
        146 => ("vichaln"@, "विचलन"@),
        147 => ("avsaar"@, "औसत"@),
        148 => ("sigmachar"@, "सिग्मा"@),
        149 => ("relu"@, "रेलु"@),
        150 => ("arab"@, "अरब"@),
        151 => ("kharab"@, "खरब"@),
        152 => ("nil"@, "नील"@),
        153 => ("shankh"@, "शंख"@),
        154 => ("padm"@, "पद्म"@),
        155 => ("bharat.vyakaran"@, "भारत.व्याकरण"@),
        156 => ("bharat.vigyan"@, "भारत.विज्ञान"@),
        157 => ("brahmagupat_gunan"@, "ब्रह्मगुप्त_गुणन"@),
        158 => ("brahmagupat_antarveshan"@, "ब्रह्मगुप्त_अंतर्वेशन"@),
        159 => ("aryabhat_varg_yog"@, "आर्यभट_वर्ग_योग"@),
        160 => ("aryabhat_ghan_yog"@, "आर्यभट_घन_योग"@),
        161 => ("katapayadi"@, "कटपयादि"@),
        162 => ("vigyanabhairav"@, "विज्ञानभैरव"@),
        163 => ("sabhi_dharana"@, "सभी_धारणाएँ"@),
        164 => ("sandhi_prakar"@, "संधि_प्रकार"@),
        165 => ("samas_prakar"@, "समास_प्रकार"@),
        166 => ("sphota"@, "स्फोट_परीक्षण"@),
        167 => ("shiva_sutra"@, "शिव_सूत्र"@),
        168 => ("guru_laghu"@, "गुरु_लघु_संकेत"@),
        169 => ("chhand_sthan"@, "छन्द_स्थान"@),
        170 => ("matra_bhar"@, "मात्रा_भार"@),
        171 => ("ras_sutra"@, "रस_सूत्र"@),
        172 => ("jancho"@, "जाँचो"@),
        173 => ("sthir"@, "स्थिर"@),
        174 => ("shuddha"@, "शुद्ध"@),
        175 => ("aryabhat_pai"@, "आर्यभट_पाई"@),
        176 => ("aryabhat_kon"@, "आर्यभट_कोण"@),
        177 => ("nakshatra_sankhya"@, "नक्षत्र_संख्या"@),
        178 => ("tithi_sankhya"@, "तिथि_संख्या"@),
        179 => ("yug_varsh"@, "युग_वर्ष"@),
        180 => ("brahmagupat_shunya"@, "ब्रह्मगुप्त_शून्य"@),
        181 => ("ya"@, "या"@),
        _ => (""@, ""@),
    }
}

/// Entry `k` of the keyword table.
fn kw_entry(k: usize) -> (r: (&'static str, &'static str))
    requires
        k < KW_COUNT,
    ensures
        r.0@ == kw_spec(k).0,
        r.1@ == kw_spec(k).1,
{
    match k {
        0 => ("anyatha yadi", "अन्यथा यदि"),
        1 => ("jab tak", "जब तक"),
        2 => ("ke liye", "के लिए"),
        3 => ("bar karo", "बार करो"),
        4 => ("band karo", "बंद करो"),
        5 => ("se adhik", "से अधिक"),
        6 => ("se kam", "से कम"),
        7 => ("bharat.ganit", "भारत.गणित"),
        8 => ("bharat.sankhya", "भारत.संख्या"),
        9 => ("bharat.pehchaan", "भारत.पहचान"),
        10 => ("bharat.bhugtaan", "भारत.भुगतान"),
        11 => ("bharat.bhasha", "भारत.भाषा"),
        12 => ("brahmaguptha_kshetra", "ब्रह्मगुप्त_क्षेत्र"),
        13 => ("heron_kshetra", "हेरॉन_क्षेत्र"),
        14 => ("laghuganak_das", "लघुगणक_दस"),
        15 => ("vyutkram_sparshjya", "व्युत्क्रम_स्पर्श"),
        16 => ("vyutkram_kojya", "व्युत्क्रम_कोज्या"),
        17 => ("vyutkram_jya", "व्युत्क्रम_ज्या"),
        18 => ("bharat vyakaran", "भारत.व्याकरण"),
        19 => ("bharat vigyan", "भारत.विज्ञान"),
        20 => ("guru laghu", "गुरु_लघु_संकेत"),
        21 => ("sandhi prakar", "संधि_प्रकार"),
        22 => ("samas prakar", "समास_प्रकार"),
        23 => ("shiva sutra", "शिव_सूत्र"),
        24 => ("chhand sthan", "छन्द_स्थान"),
        25 => ("matra bhar", "मात्रा_भार"),
        26 => ("ras sutra", "रस_सूत्र"),
        27 => ("aryabhat pai", "आर्यभट_पाई"),
        28 => ("nakshatra sankhya", "नक्षत्र_संख्या"),
        29 => ("tithi sankhya", "तिथि_संख्या"),
        30 => ("yug varsh", "युग_वर्ष"),
        31 => ("batao", "बताओ"),
        32 => ("likho", "लिखो"),
        33 => ("anyatha", "अन्यथा"),
        34 => ("yadi", "यदि"),
        35 => ("toh", "तो"),
        36 => ("vidhi", "विधि"),
        37 => ("phal", "फल"),
        38 => ("satya", "सत्य"),
        39 => ("asatya", "असत्य"),
        40 => ("nahin", "नहीं"),
        41 => ("vaishvik", "वैश्विक"),
        42 => ("lamda", "लाम्डा"),
        43 => ("agla", "अगला"),
        44 => ("barabar", "बराबर"),
        45 => ("aayat", "आयात"),
        46 => ("koshish", "कोशिश"),
        47 => ("pakdo", "पकड़ो"),
        48 => ("truti", "त्रुटि"),
        49 => ("banao", "बनाओ"),
        50 => ("mein", "में"),
        51 => ("hai", "है"),
        52 => ("yah", "यह"),
        53 => ("aur", "और"),
        54 => ("swaroop", "स्वरूप"),
        55 => ("purnanks", "पूर्णांक"),
        56 => ("vargmool", "वर्गमूल"),
        57 => ("nirapeksh", "निरपेक्ष"),
        58 => ("manchitra", "मानचित्र"),
        59 => ("chhano", "छानो"),
        60 => ("modo", "मोड़ो"),
        61 => ("lambai", "लम्बाई"),
        62 => ("joodo", "जोड़ो"),
        63 => ("hatao", "हटाओ"),
        64 => ("ulta", "उलटा"),
        65 => ("krambaddh", "क्रमबद्ध"),
        66 => ("milao", "मिलाओ"),
        67 => ("shuru_mein", "शुरू_में"),
        68 => ("ant_mein", "अंत_में"),
        69 => ("khojo", "खोजो"),
        70 => ("vibhajit", "विभाजित"),
        71 => ("badlo", "बदलो"),
        72 => ("yadrichhik", "यादृच्छिक"),
        73 => ("nirgam", "निर्गम"),
        74 => ("ghataank", "घातांक"),
        75 => ("ghaat", "घात"),
        76 => ("padho", "पढ़ो"),
        77 => ("vakya", "वाक्य"),
        78 => ("prakar", "प्रकार"),
        79 => ("laghuganak", "लघुगणक"),
        80 => ("gol", "गोल"),
        81 => ("pai", "पाई"),
        82 => ("anant", "अनंत"),
        83 => ("sparshjya", "स्पर्शज्या"),
        84 => ("kojya", "कोज्या"),
        85 => ("jya", "ज्या"),
        86 => ("virahank", "विरहांक"),
        87 => ("sanyojan", "संयोजन"),
        88 => ("kramchay", "क्रमचय"),
        89 => ("suchi", "सूची"),
        90 => ("kosh", "कोश"),
        91 => ("varg", "वर्ग"),
        92 => ("meru_pankti", "मेरु_पंक्ति"),
        93 => ("brahmagupat_antar", "ब्रह्मगुप्त_अंतर"),
        94 => ("shridhar_sutra", "श्रीधर_सूत्र"),
        95 => ("bakshali_mul", "बखशाली_मूल"),
        96 => ("mahavir_bhinn", "महावीर_भिन्न"),
        97 => ("aryabhat_yog", "आर्यभट_योग"),
        98 => ("varga_yog", "वर्ग_योग"),
        99 => ("ghana_yog", "घन_योग"),
        100 => ("nakshatra_naam", "नक्षत्र_नाम"),
        101 => ("nakshatra_kram", "नक्षत्र_क्रम"),
        102 => ("tithi_naam", "तिथि_नाम"),
        103 => ("yug_naam", "युग_नाम"),
        104 => ("graha_kram", "ग्रह_क्रम"),
        105 => ("sabhi_nakshatra", "सभी_नक्षत्र"),
        106 => ("ras_naam", "रस_नाम"),
        107 => ("ras_bhav", "रस_भाव"),
        108 => ("ras_vivaran", "रस_विवरण"),
        109 => ("sabhi_ras", "सभी_रस"),
        110 => ("sttar_banao", "स्तर_बनाओ"),
        111 => ("aage_paas", "आगे_पास"),
        112 => ("jal_aage", "जाल_आगे"),
        113 => ("truti_varg_avkal", "त्रुटि_वर्ग_अवकल"),
        114 => ("truti_varg", "त्रुटि_वर्ग"),
        115 => ("dhal_avaroh", "ढाल_अवरोह"),
        116 => ("adam_charan", "आदम_चरण"),
        117 => ("dhal_sankhyik", "ढाल_संख्यिक"),
        118 => ("sikhne_ki_dar", "सीखने_की_दर"),
        119 => ("rekhiy_pratigraman", "रेखीय_प्रतिगमन"),
        120 => ("bhavisyavani", "भविष्यवाणी"),
        121 => ("sahsambandh", "सहसम्बन्ध"),
        122 => ("ka_sadhan", "क_साधन"),
        123 => ("nikattam_padosi", "निकटतम_पड़ोसी"),
        124 => ("turing_chalao", "तुरिंग_चलाओ"),
        125 => ("turing_siddh", "तुरिंग_सिद्ध"),
        126 => ("yantra_banao", "यंत्र_बनाओ"),
        127 => ("yantra_chalao", "यंत्र_चलाओ"),
        128 => ("yantra_sthiti", "यंत्र_स्थिति"),
        129 => ("niyam_jodo", "नियम_जोड़ो"),
        130 => ("purush_banao", "पुरुष_बनाओ"),
        131 => ("purush_socho", "पुरुष_सोचो"),
        132 => ("kuttak", "कुट्टक"),
        133 => ("nashtam", "नष्टम"),
        134 => ("uddiisht", "उद्दिष्ट"),
        135 => ("prastaar", "प्रस्तार"),
        136 => ("dvi_aadhaar", "द्विआधार"),
        137 => ("anumaan", "अनुमान"),
        138 => ("vyaapti", "व्याप्ति"),
        139 => ("hetvabhaas", "हेत्वाभास"),
        140 => ("pramaan", "प्रमाण"),
        141 => ("karna", "कर्ण"),
        142 => ("shulba_mul", "शुल्ब_मूल"),
        143 => ("vrtta_varg", "वृत्त_वर्ग"),
        144 => ("varg_vrtta", "वर्ग_वृत्त"),
        145 => ("madhyika", "माध्यिका"),
        146 => ("vichaln", "विचलन"),
        147 => ("avsaar", "औसत"),
        148 => ("sigmachar", "सिग्मा"),
        149 => ("relu", "रेलु"),
        150 => ("arab", "अरब"),
        151 => ("kharab", "खरब"),
        152 => ("nil", "नील"),
        153 => ("shankh", "शंख"),
        154 => ("padm", "पद्म"),
        155 => ("bharat.vyakaran", "भारत.व्याकरण"),
        156 => ("bharat.vigyan", "भारत.विज्ञान"),
        157 => ("brahmagupat_gunan", "ब्रह्मगुप्त_गुणन"),
        158 => ("brahmagupat_antarveshan", "ब्रह्मगुप्त_अंतर्वेशन"),
        159 => ("aryabhat_varg_yog", "आर्यभट_वर्ग_योग"),
        160 => ("aryabhat_ghan_yog", "आर्यभट_घन_योग"),
        161 => ("katapayadi", "कटपयादि"),
        162 => ("vigyanabhairav", "विज्ञानभैरव"),
        163 => ("sabhi_dharana", "सभी_धारणाएँ"),
        164 => ("sandhi_prakar", "संधि_प्रकार"),
        165 => ("samas_prakar", "समास_प्रकार"),
        166 => ("sphota", "स्फोट_परीक्षण"),
        167 => ("shiva_sutra", "शिव_सूत्र"),
        168 => ("guru_laghu", "गुरु_लघु_संकेत"),
        169 => ("chhand_sthan", "छन्द_स्थान"),
        170 => ("matra_bhar", "मात्रा_भार"),
        171 => ("ras_sutra", "रस_सूत्र"),
        172 => ("jancho", "जाँचो"),
        173 => ("sthir", "स्थिर"),
        174 => ("shuddha", "शुद्ध"),
        175 => ("aryabhat_pai", "आर्यभट_पाई"),
        176 => ("aryabhat_kon", "आर्यभट_कोण"),
        177 => ("nakshatra_sankhya", "नक्षत्र_संख्या"),
        178 => ("tithi_sankhya", "तिथि_संख्या"),
        179 => ("yug_varsh", "युग_वर्ष"),
        180 => ("brahmagupat_shunya", "ब्रह्मगुप्त_शून्य"),
        181 => ("ya", "या"),
        _ => ("", ""),
    }
}

/// Every Roman spelling in the table is non-empty.
pub proof fn lemma_kw_roman_nonempty(k: usize)
    requires
        k < KW_COUNT,
    ensures
        kw_spec(k).0.len() > 0,
{
    match k {
        0 => { reveal_strlit("anyatha yadi"); }
        1 => { reveal_strlit("jab tak"); }
        2 => { reveal_strlit("ke liye"); }
        3 => { reveal_strlit("bar karo"); }
        4 => { reveal_strlit("band karo"); }
        5 => { reveal_strlit("se adhik"); }
        6 => { reveal_strlit("se kam"); }
        7 => { reveal_strlit("bharat.ganit"); }
        8 => { reveal_strlit("bharat.sankhya"); }
        9 => { reveal_strlit("bharat.pehchaan"); }
        10 => { reveal_strlit("bharat.bhugtaan"); }
        11 => { reveal_strlit("bharat.bhasha"); }
        12 => { reveal_strlit("brahmaguptha_kshetra"); }
        13 => { reveal_strlit("heron_kshetra"); }
        14 => { reveal_strlit("laghuganak_das"); }
        15 => { reveal_strlit("vyutkram_sparshjya"); }
        16 => { reveal_strlit("vyutkram_kojya"); }
        17 => { reveal_strlit("vyutkram_jya"); }
        18 => { reveal_strlit("bharat vyakaran"); }
        19 => { reveal_strlit("bharat vigyan"); }
        20 => { reveal_strlit("guru laghu"); }
        21 => { reveal_strlit("sandhi prakar"); }
        22 => { reveal_strlit("samas prakar"); }
        23 => { reveal_strlit("shiva sutra"); }
        24 => { reveal_strlit("chhand sthan"); }
        25 => { reveal_strlit("matra bhar"); }
        26 => { reveal_strlit("ras sutra"); }
        27 => { reveal_strlit("aryabhat pai"); }
        28 => { reveal_strlit("nakshatra sankhya"); }
        29 => { reveal_strlit("tithi sankhya"); }
        30 => { reveal_strlit("yug varsh"); }
        31 => { reveal_strlit("batao"); }
        32 => { reveal_strlit("likho"); }
        33 => { reveal_strlit("anyatha"); }
        34 => { reveal_strlit("yadi"); }
        35 => { reveal_strlit("toh"); }
        36 => { reveal_strlit("vidhi"); }
        37 => { reveal_strlit("phal"); }
        38 => { reveal_strlit("satya"); }
        39 => { reveal_strlit("asatya"); }
        40 => { reveal_strlit("nahin"); }
        41 => { reveal_strlit("vaishvik"); }
        42 => { reveal_strlit("lamda"); }
        43 => { reveal_strlit("agla"); }
        44 => { reveal_strlit("barabar"); }
        45 => { reveal_strlit("aayat"); }
        46 => { reveal_strlit("koshish"); }
        47 => { reveal_strlit("pakdo"); }
        48 => { reveal_strlit("truti"); }
        49 => { reveal_strlit("banao"); }
        50 => { reveal_strlit("mein"); }
        51 => { reveal_strlit("hai"); }
        52 => { reveal_strlit("yah"); }
        53 => { reveal_strlit("aur"); }
        54 => { reveal_strlit("swaroop"); }
        55 => { reveal_strlit("purnanks"); }
        56 => { reveal_strlit("vargmool"); }
        57 => { reveal_strlit("nirapeksh"); }
        58 => { reveal_strlit("manchitra"); }
        59 => { reveal_strlit("chhano"); }
        60 => { reveal_strlit("modo"); }
        61 => { reveal_strlit("lambai"); }
        62 => { reveal_strlit("joodo"); }
        63 => { reveal_strlit("hatao"); }
        64 => { reveal_strlit("ulta"); }
        65 => { reveal_strlit("krambaddh"); }
        66 => { reveal_strlit("milao"); }
        67 => { reveal_strlit("shuru_mein"); }
        68 => { reveal_strlit("ant_mein"); }
        69 => { reveal_strlit("khojo"); }
        70 => { reveal_strlit("vibhajit"); }
        71 => { reveal_strlit("badlo"); }
        72 => { reveal_strlit("yadrichhik"); }
        73 => { reveal_strlit("nirgam"); }
        74 => { reveal_strlit("ghataank"); }
        75 => { reveal_strlit("ghaat"); }
        76 => { reveal_strlit("padho"); }
        77 => { reveal_strlit("vakya"); }
        78 => { reveal_strlit("prakar"); }
        79 => { reveal_strlit("laghuganak"); }
        80 => { reveal_strlit("gol"); }
        81 => { reveal_strlit("pai"); }
        82 => { reveal_strlit("anant"); }
        83 => { reveal_strlit("sparshjya"); }
        84 => { reveal_strlit("kojya"); }
        85 => { reveal_strlit("jya"); }
        86 => { reveal_strlit("virahank"); }
        87 => { reveal_strlit("sanyojan"); }
        88 => { reveal_strlit("kramchay"); }
        89 => { reveal_strlit("suchi"); }
        90 => { reveal_strlit("kosh"); }
        91 => { reveal_strlit("varg"); }
        92 => { reveal_strlit("meru_pankti"); }
        93 => { reveal_strlit("brahmagupat_antar"); }
        94 => { reveal_strlit("shridhar_sutra"); }
        95 => { reveal_strlit("bakshali_mul"); }
        96 => { reveal_strlit("mahavir_bhinn"); }
        97 => { reveal_strlit("aryabhat_yog"); }
        98 => { reveal_strlit("varga_yog"); }
        99 => { reveal_strlit("ghana_yog"); }
        100 => { reveal_strlit("nakshatra_naam"); }
        101 => { reveal_strlit("nakshatra_kram"); }
        102 => { reveal_strlit("tithi_naam"); }
        103 => { reveal_strlit("yug_naam"); }
        104 => { reveal_strlit("graha_kram"); }
        105 => { reveal_strlit("sabhi_nakshatra"); }
        106 => { reveal_strlit("ras_naam"); }
        107 => { reveal_strlit("ras_bhav"); }
        108 => { reveal_strlit("ras_vivaran"); }
        109 => { reveal_strlit("sabhi_ras"); }
        110 => { reveal_strlit("sttar_banao"); }
        111 => { reveal_strlit("aage_paas"); }
        112 => { reveal_strlit("jal_aage"); }
        113 => { reveal_strlit("truti_varg_avkal"); }
        114 => { reveal_strlit("truti_varg"); }
        115 => { reveal_strlit("dhal_avaroh"); }
        116 => { reveal_strlit("adam_charan"); }
        117 => { reveal_strlit("dhal_sankhyik"); }
        118 => { reveal_strlit("sikhne_ki_dar"); }
        119 => { reveal_strlit("rekhiy_pratigraman"); }
        120 => { reveal_strlit("bhavisyavani"); }
        121 => { reveal_strlit("sahsambandh"); }
        122 => { reveal_strlit("ka_sadhan"); }
        123 => { reveal_strlit("nikattam_padosi"); }
        124 => { reveal_strlit("turing_chalao"); }
        125 => { reveal_strlit("turing_siddh"); }
        126 => { reveal_strlit("yantra_banao"); }
        127 => { reveal_strlit("yantra_chalao"); }
        128 => { reveal_strlit("yantra_sthiti"); }
        129 => { reveal_strlit("niyam_jodo"); }
        130 => { reveal_strlit("purush_banao"); }
        131 => { reveal_strlit("purush_socho"); }
        132 => { reveal_strlit("kuttak"); }
        133 => { reveal_strlit("nashtam"); }
        134 => { reveal_strlit("uddiisht"); }
        135 => { reveal_strlit("prastaar"); }
        136 => { reveal_strlit("dvi_aadhaar"); }
        137 => { reveal_strlit("anumaan"); }
        138 => { reveal_strlit("vyaapti"); }
        139 => { reveal_strlit("hetvabhaas"); }
        140 => { reveal_strlit("pramaan"); }
        141 => { reveal_strlit("karna"); }
        142 => { reveal_strlit("shulba_mul"); }
        143 => { reveal_strlit("vrtta_varg"); }
        144 => { reveal_strlit("varg_vrtta"); }
        145 => { reveal_strlit("madhyika"); }
        146 => { reveal_strlit("vichaln"); }
        147 => { reveal_strlit("avsaar"); }
        148 => { reveal_strlit("sigmachar"); }
        149 => { reveal_strlit("relu"); }
        150 => { reveal_strlit("arab"); }
        151 => { reveal_strlit("kharab"); }
        152 => { reveal_strlit("nil"); }
        153 => { reveal_strlit("shankh"); }
        154 => { reveal_strlit("padm"); }
        155 => { reveal_strlit("bharat.vyakaran"); }
        156 => { reveal_strlit("bharat.vigyan"); }
        157 => { reveal_strlit("brahmagupat_gunan"); }
        158 => { reveal_strlit("brahmagupat_antarveshan"); }
        159 => { reveal_strlit("aryabhat_varg_yog"); }
        160 => { reveal_strlit("aryabhat_ghan_yog"); }
        161 => { reveal_strlit("katapayadi"); }
        162 => { reveal_strlit("vigyanabhairav"); }
        163 => { reveal_strlit("sabhi_dharana"); }
        164 => { reveal_strlit("sandhi_prakar"); }
        165 => { reveal_strlit("samas_prakar"); }
        166 => { reveal_strlit("sphota"); }
        167 => { reveal_strlit("shiva_sutra"); }
        168 => { reveal_strlit("guru_laghu"); }
        169 => { reveal_strlit("chhand_sthan"); }
        170 => { reveal_strlit("matra_bhar"); }
        171 => { reveal_strlit("ras_sutra"); }
        172 => { reveal_strlit("jancho"); }
        173 => { reveal_strlit("sthir"); }
        174 => { reveal_strlit("shuddha"); }
        175 => { reveal_strlit("aryabhat_pai"); }
        176 => { reveal_strlit("aryabhat_kon"); }
        177 => { reveal_strlit("nakshatra_sankhya"); }
        178 => { reveal_strlit("tithi_sankhya"); }
        179 => { reveal_strlit("yug_varsh"); }
        180 => { reveal_strlit("brahmagupat_shunya"); }
        181 => { reveal_strlit("ya"); }
        _ => {}
    }
}

/// Whether `c` continues a word: Unicode alphanumeric, or `_`.
pub open spec fn is_word_spec(c: char) -> bool {
    spec_is_alphanumeric(c) || c == '_'
}

fn is_word(c: char) -> (b: bool)
    ensures
        b == is_word_spec(c),
        is_ascii_alpha_spec(c) ==> b,
{
    char_is_alphanumeric(c) || c == '_'
}

/// `p` occurs at position `i` of `chars` when `chars` is ASCII-lowercased.
pub open spec fn matches_at(chars: Seq<char>, i: int, p: Seq<char>) -> bool {
    &&& 0 <= i
    &&& i + p.len() <= chars.len()
    &&& forall|j: int| 0 <= j < p.len() ==> to_ascii_lower_spec(chars[i + j]) == #[trigger] p[j]
}

/// Position `end` is a word boundary: the end of the line or a non-word character.
pub open spec fn boundary_after(chars: Seq<char>, end: int) -> bool {
    end >= chars.len() || !is_word_spec(chars[end])
}

/// Keyword `k` matches at `i`: its spelling occurs there and ends at a word boundary.
pub open spec fn kw_hits(chars: Seq<char>, i: int, k: usize) -> bool {
    matches_at(chars, i, kw_spec(k).0) && boundary_after(chars, i + kw_spec(k).0.len())
}

/// The first keyword at index `k` or later (in table order) that matches at `i`.
pub open spec fn kw_first_from(chars: Seq<char>, i: int, k: usize) -> Option<usize>
    decreases KW_COUNT - k,
{
    if k >= KW_COUNT {
        None
    } else if kw_hits(chars, i, k) {
        Some(k)
    } else {
        kw_first_from(chars, i, (k + 1) as usize)
    }
}

pub proof fn lemma_kw_first_from(chars: Seq<char>, i: int, k: usize)
    ensures
        match kw_first_from(chars, i, k) {
            Some(r) => k <= r < KW_COUNT && kw_hits(chars, i, r),
            None => forall|q: usize| k <= q < KW_COUNT ==> !kw_hits(chars, i, q),
        },
    decreases KW_COUNT - k,
{
    if k < KW_COUNT && !kw_hits(chars, i, k) {
        lemma_kw_first_from(chars, i, (k + 1) as usize);
    }
}

/// Keywords are matched as whole words only: the keyword chosen at `i` is
/// spelled there and the character after its spelling, if any, is not a
/// letter, digit or `_`; so `ya` is never taken out of `yatra`.
pub proof fn law_keyword_whole_word(chars: Seq<char>, i: int)
    ensures
        kw_first_from(chars, i, 0) matches Some(k) ==> {
            let n = kw_spec(k).0.len();
            &&& matches_at(chars, i, kw_spec(k).0)
            &&& (i + n >= chars.len() || !(spec_is_alphanumeric(chars[i + n]) || chars[i + n] == '_'))
        },
{
    lemma_kw_first_from(chars, i, 0);
}

proof fn lemma_identifier_tail(chars: Seq<char>, i: int)
    requires
        1 <= i <= chars.len(),
        forall|j: int| 0 <= j < chars.len() ==> #[trigger] is_word_spec(chars[j]),
        forall|j: int| 0 <= j < chars.len() ==> #[trigger] chars[j] != '"' && chars[j] != '#' && chars[j] != '\u{964}',
    ensures
        line_from(chars, i, false) == chars.subrange(i, chars.len() as int),
    decreases chars.len() - i,
{
    if i < chars.len() {
        assert(is_word_spec(chars[i - 1]));
        assert(chars[i] != '"' && chars[i] != '#' && chars[i] != '\u{964}');
        lemma_identifier_tail(chars, i + 1);
        assert(chars.subrange(i, chars.len() as int) =~= seq![chars[i]] + chars.subrange(i + 1, chars.len() as int));
    } else {
        assert(chars.subrange(i, chars.len() as int) =~= Seq::<char>::empty());
    }
}

/// A line that is one identifier (only letters, digits and `_`) whose whole
/// spelling is no keyword is left as it is: a keyword spelled at its start,
/// such as `ya` in `yatra`, is not replaced.
pub proof fn law_identifier_kept(chars: Seq<char>)
    requires
        forall|j: int| 0 <= j < chars.len() ==> #[trigger] is_word_spec(chars[j]),
        forall|j: int| 0 <= j < chars.len() ==> #[trigger] chars[j] != '"' && chars[j] != '#' && chars[j] != '\u{964}',
        forall|k: usize| k < KW_COUNT ==> !(#[trigger] kw_spec(k).0.len() == chars.len() && matches_at(chars, 0, kw_spec(k).0)),
    ensures
        translate_line_spec(chars) == chars,
{
    if chars.len() == 0 {
        assert(line_from(chars, 0, false) =~= chars);
    } else {
        law_keyword_whole_word(chars, 0);
        lemma_kw_first_from(chars, 0, 0);
        if kw_first_from(chars, 0, 0) is Some {
            let k = kw_first_from(chars, 0, 0).unwrap();
            let n = kw_spec(k).0.len() as int;
            if n < chars.len() {
                assert(is_word_spec(chars[n]));
            }
            assert(n == chars.len());
            assert(false);
        }
        assert(chars[0] != '"' && chars[0] != '#' && chars[0] != '\u{964}');
        lemma_identifier_tail(chars, 1);
        assert(chars =~= seq![chars[0]] + chars.subrange(1, chars.len() as int));
    }
}

/// Translation of one line from position `i`, `in_str` telling whether `i` lies
/// inside a string literal.
pub open spec fn line_from(chars: Seq<char>, i: int, in_str: bool) -> Seq<char>
    decreases chars.len() - i,
{
    if i < 0 || i >= chars.len() {
        Seq::empty()
    } else {
        let c = chars[i];
        if c == '"' {
            let next = !in_str || (i > 0 && chars[i - 1] == '\\');
            seq![c] + line_from(chars, i + 1, next)
        } else if in_str {
            seq![c] + line_from(chars, i + 1, true)
        } else if c == '#' || c == '\u{964}' {
            chars.subrange(i, chars.len() as int)
        } else if (i == 0 || !is_word_spec(chars[i - 1])) && is_ascii_alpha_spec(c)
            && kw_first_from(chars, i, 0) is Some {
            let k = kw_first_from(chars, i, 0).unwrap();
            proof {
                lemma_kw_first_from(chars, i, 0);
                lemma_kw_roman_nonempty(k);
            }
            kw_spec(k).1 + line_from(chars, i + kw_spec(k).0.len(), false)
        } else {
            seq![c] + line_from(chars, i + 1, false)
        }
    }
}

/// Translation of a whole line.
pub open spec fn translate_line_spec(line: Seq<char>) -> Seq<char> {
    line_from(line, 0, false)
}

/// Index of the first line break in `s`, or `s.len()` when there is none.
pub open spec fn first_nl(s: Seq<char>) -> int
    decreases s.len(),
{
    if s.len() == 0 {
        0
    } else if s[0] == '\n' {
        0
    } else {
        1 + first_nl(s.drop_first())
    }
}

pub proof fn lemma_first_nl(s: Seq<char>, k: int)
    requires
        0 <= k <= s.len(),
        forall|j: int| 0 <= j < k ==> s[j] != '\n',
        k == s.len() || s[k] == '\n',
    ensures
        first_nl(s) == k,
    decreases k,
{
    if k > 0 {
        lemma_first_nl(s.drop_first(), k - 1);
    }
}

pub proof fn lemma_first_nl_bounds(s: Seq<char>)
    ensures
        0 <= first_nl(s) <= s.len(),
        first_nl(s) < s.len() ==> s[first_nl(s)] == '\n',
    decreases s.len(),
{
    if s.len() > 0 && s[0] != '\n' {
        lemma_first_nl_bounds(s.drop_first());
    }
}

/// The text `s` cut at line breaks, each line translated, and the lines
/// joined by `\n` again, so that every line break is kept one for one.
pub open spec fn lines_spec(s: Seq<char>) -> Seq<char>
    decreases s.len(),
{
    let k = first_nl(s);
    proof {
        lemma_first_nl_bounds(s);
    }
    if k >= s.len() {
        translate_line_spec(s)
    } else {
        translate_line_spec(s.subrange(0, k)) + seq!['\n'] + lines_spec(
            s.subrange(k + 1, s.len() as int),
        )
    }
}

/// The Devanagari source for a Roman-script source.
pub open spec fn roman_spec(src: Seq<char>) -> Seq<char> {
    lines_spec(src)
}

proof fn lemma_line_from_plain(chars: Seq<char>, i: int, in_str: bool)
    requires
        0 <= i <= chars.len(),
        forall|j: int| 0 <= j < chars.len() ==> !is_ascii_alpha_spec(#[trigger] chars[j]),
    ensures
        line_from(chars, i, in_str) == chars.subrange(i, chars.len() as int),
    decreases chars.len() - i,
{
    if i < chars.len() {
        let c = chars[i];
        assert(!is_ascii_alpha_spec(c));
        if !(c != '"' && !in_str && (c == '#' || c == '\u{964}')) {
            let next = if c == '"' {
                !in_str || (i > 0 && chars[i - 1] == '\\')
            } else {
                in_str
            };
            lemma_line_from_plain(chars, i + 1, next);
            assert(line_from(chars, i, in_str) == seq![c] + line_from(chars, i + 1, next));
            assert(seq![c] + chars.subrange(i + 1, chars.len() as int) =~= chars.subrange(
                i,
                chars.len() as int,
            ));
        }
    } else {
        assert(chars.subrange(i, chars.len() as int) =~= Seq::<char>::empty());
    }
}

/// Text without an ASCII letter holds no keyword, so translating it gives it
/// back unchanged, line breaks included.
pub proof fn law_plain_text_unchanged(src: Seq<char>)
    requires
        forall|j: int| 0 <= j < src.len() ==> !is_ascii_alpha_spec(#[trigger] src[j]),
    ensures
        roman_spec(src) == src,
    decreases src.len(),
{
    let k = first_nl(src);
    lemma_first_nl_bounds(src);
    if k >= src.len() {
        lemma_line_from_plain(src, 0, false);
        assert(src.subrange(0, src.len() as int) =~= src);
    } else {
        let head = src.subrange(0, k);
        let rest = src.subrange(k + 1, src.len() as int);
        assert forall|j: int| 0 <= j < head.len() implies !is_ascii_alpha_spec(#[trigger] head[j]) by {
            assert(head[j] == src[j]);
        }
        assert forall|j: int| 0 <= j < rest.len() implies !is_ascii_alpha_spec(#[trigger] rest[j]) by {
            assert(rest[j] == src[k + 1 + j]);
        }
        lemma_line_from_plain(head, 0, false);
        law_plain_text_unchanged(rest);
        assert(head.subrange(0, head.len() as int) =~= head);
        assert(head + seq!['\n'] + rest =~= src);
    }
}

/// Whether `p` occurs at `i` in the ASCII-lowercased `chars`.
fn starts_with_lower(chars: &Vec<char>, i: usize, p: &str) -> (b: bool)
    requires
        i <= chars@.len(),
    ensures
        b == matches_at(chars@, i as int, p@),
{
    let m = p.unicode_len();
    let len = chars.len();
    if m > len - i {
        return false;
    }
    let mut j: usize = 0;
    while j < m
        invariant
            j <= m,
            m == p@.len(),
            len == chars@.len(),
            i + m <= len,
            forall|t: int| 0 <= t < j ==> to_ascii_lower_spec(chars@[i + t]) == #[trigger] p@[t],
        decreases m - j,
    {
        if to_ascii_lower(chars[i + j]) != p.get_char(j) {
            return false;
        }
        j = j + 1;
    }
    true
}

/// The first keyword, in table order, that matches at `i`.
fn try_match(chars: &Vec<char>, i: usize) -> (r: Option<usize>)
    requires
        i < chars@.len(),
    ensures
        r == kw_first_from(chars@, i as int, 0),
{
    let mut k: usize = 0;
    while k < KW_COUNT
        invariant
            k <= KW_COUNT,
            i < chars@.len(),
            kw_first_from(chars@, i as int, 0) == kw_first_from(chars@, i as int, k),
        decreases KW_COUNT - k,
    {
        let (roman, _dev) = kw_entry(k);
        if starts_with_lower(chars, i, roman) {
            let m = roman.unicode_len();
            let len = chars.len();
            assert(i + m <= len);
            let end = i + m;
            if end >= chars.len() || !is_word(chars[end]) {
                return Some(k);
            }
        }
        k = k + 1;
    }
    None
}

/// The translation of one line (see `translate_line_spec`): what
/// `show_translation` shows beside a line that changes.
pub fn translate_one_line(line: &str) -> (r: String)
    ensures
        r@ == translate_line_spec(line@),
{
    let chars = str_chars(line);
    let mut out = String::new();
    translate_line(&chars, &mut out);
    assert(out@ =~= translate_line_spec(line@));
    out
}

/// Appends the translation of one line to `out`.
fn translate_line(chars: &Vec<char>, out: &mut String)
    ensures
        final(out)@ == old(out)@ + translate_line_spec(chars@),
{
    let ghost start = out@;
    let n = chars.len();
    let mut i: usize = 0;
    let mut in_str = false;
    while i < n
        invariant
            i <= n,
            n == chars@.len(),
            start == old(out)@,
            out@ + line_from(chars@, i as int, in_str) == start + translate_line_spec(chars@),
        decreases n - i,
    {
        let c = chars[i];
        if c == '"' {
            let escaped = i > 0 && chars[i - 1] == '\\';
            let next = !in_str || escaped;
            push_char(out, c);
            in_str = next;
            i = i + 1;
            assert(out@ + line_from(chars@, i as int, in_str) =~= start + translate_line_spec(
                chars@,
            ));
            continue;
        }
        if in_str {
            push_char(out, c);
            i = i + 1;
            assert(out@ + line_from(chars@, i as int, in_str) =~= start + translate_line_spec(
                chars@,
            ));
            continue;
        }
        if c == '#' || c == '\u{964}' {
            assert(line_from(chars@, i as int, in_str) == chars@.subrange(i as int, n as int));
            let ghost before = out@;
            push_chars(out, chars.as_slice(), i, n);
            assert(out@ == before + chars@.subrange(i as int, n as int));
            assert(out@ == start + translate_line_spec(chars@));
            return;
        }
        let at_boundary = i == 0 || !is_word(chars[i - 1]);
        if at_boundary && is_ascii_alpha(c) {
            match try_match(chars, i) {
                Some(k) => {
                    proof {
                        lemma_kw_first_from(chars@, i as int, 0);
                        lemma_kw_roman_nonempty(k);
                    }
                    let (roman, dev) = kw_entry(k);
                    push_str(out, dev);
                    i = i + roman.unicode_len();
                    assert(out@ + line_from(chars@, i as int, false) =~= start
                        + translate_line_spec(chars@));
                    in_str = false;
                    continue;
                },
                None => {},
            }
        }
        push_char(out, c);
        i = i + 1;
        assert(out@ + line_from(chars@, i as int, in_str) =~= start + translate_line_spec(chars@));
    }
    assert(line_from(chars@, i as int, in_str) =~= Seq::<char>::empty());
    assert(out@ =~= start + translate_line_spec(chars@));
}

/// Converts a Roman-script source to Devanagari source. Keywords are replaced
/// line by line; string literals, `#` and `।` comments are kept verbatim.
/// Line breaks are kept one for one.
pub fn roman_to_devanagari(source: &str) -> (out: String)
    ensures
        out@ == roman_spec(source@),
{
    let chars = str_chars(source);
    let n = chars.len();
    let mut out = String::new();
    let mut start: usize = 0;
    assert(chars@.subrange(0, n as int) =~= chars@);
    loop
        invariant
            start <= n,
            n == chars@.len(),
            chars@ == source@,
            out@ + lines_spec(chars@.subrange(start as int, n as int)) == roman_spec(
                source@,
            ),
        decreases n - start,
    {
        let ghost rest = chars@.subrange(start as int, n as int);
        let mut line: Vec<char> = Vec::new();
        let mut k = start;
        while k < n && chars[k] != '\n'
            invariant
                start <= k <= n,
                n == chars@.len(),
                line@ == chars@.subrange(start as int, k as int),
                forall|j: int| start <= j < k ==> chars@[j] != '\n',
            decreases n - k,
        {
            line.push(chars[k]);
            k = k + 1;
            assert(line@ =~= chars@.subrange(start as int, k as int));
        }
        proof {
            lemma_first_nl(rest, k - start);
            assert(rest.subrange(0, k - start) =~= line@);
        }
        translate_line(&line, &mut out);
        if k == n {
            assert(rest =~= line@);
            return out;
        }
        push_char(&mut out, '\n');
        assert(rest.subrange(k - start + 1, rest.len() as int) =~= chars@.subrange(
            k + 1,
            n as int,
        ));
        start = k + 1;
    }
}

} // verus!
