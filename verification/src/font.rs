//! The font choices the editor offers. The core never reads fonts from
//! disk; it only names them, their display labels and where the system
//! keeps their files, for the presentation layer to use.

use vstd::prelude::*;

verus! {

/// One of the Japanese fonts the editor can display its text in.
#[derive(Clone, PartialEq, Eq, Structural)]
pub enum FontChoice {
    YuGothic,
    Meiryo,
    MSGothic,
    MSMincho,
}

impl FontChoice {
    /// The label shown for this font in the font selector.
    pub fn display_name(&self) -> (r: &'static str)
        ensures
            (match self {
                FontChoice::YuGothic => r@ == "游ゴシック"@,
                FontChoice::Meiryo => r@ == "メイリオ"@,
                FontChoice::MSGothic => r@ == "MS ゴシック"@,
                FontChoice::MSMincho => r@ == "MS 明朝"@,
            }),
    {
        match self {
            FontChoice::YuGothic => "游ゴシック",
            FontChoice::Meiryo => "メイリオ",
            FontChoice::MSGothic => "MS ゴシック",
            FontChoice::MSMincho => "MS 明朝",
        }
    }

    /// Where the system keeps this font's file.
    pub fn font_path(&self) -> (r: &'static str)
        ensures
            (match self {
                FontChoice::YuGothic => r@ == "C:\\Windows\\Fonts\\YuGothM.ttc"@,
                FontChoice::Meiryo => r@ == "C:\\Windows\\Fonts\\meiryo.ttc"@,
                FontChoice::MSGothic => r@ == "C:\\Windows\\Fonts\\msgothic.ttc"@,
                FontChoice::MSMincho => r@ == "C:\\Windows\\Fonts\\msmincho.ttc"@,
            }),
    {
        match self {
            FontChoice::YuGothic => "C:\\Windows\\Fonts\\YuGothM.ttc",
            FontChoice::Meiryo => "C:\\Windows\\Fonts\\meiryo.ttc",
            FontChoice::MSGothic => "C:\\Windows\\Fonts\\msgothic.ttc",
            FontChoice::MSMincho => "C:\\Windows\\Fonts\\msmincho.ttc",
        }
    }

    /// Every font the editor offers, in selector order.
    pub fn all() -> (r: Vec<FontChoice>)
        ensures
            r@ == seq![
                FontChoice::YuGothic,
                FontChoice::Meiryo,
                FontChoice::MSGothic,
                FontChoice::MSMincho,
            ],
    {
        let mut r: Vec<FontChoice> = Vec::new();
        r.push(FontChoice::YuGothic);
        r.push(FontChoice::Meiryo);
        r.push(FontChoice::MSGothic);
        r.push(FontChoice::MSMincho);
        proof {
            assert(r@ =~= seq![
                FontChoice::YuGothic,
                FontChoice::Meiryo,
                FontChoice::MSGothic,
                FontChoice::MSMincho,
            ]);
        }
        r
    }
}

impl Default for FontChoice {
    /// The font a fresh installation starts with.
    fn default() -> (r: Self)
        ensures
            r == FontChoice::YuGothic,
    {
        FontChoice::YuGothic
    }
}

} // verus!
