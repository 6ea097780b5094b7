//! Country and continent facts, UTC-offset formatting and the assembly of
//! a [`Place`] from the strings of a geocoder hit, with the time-zone facts
//! that the `chrono-tz` database gives at a clock reading.

use vstd::prelude::*;
use vstd::utf8::encode_utf8;

use crate::text::string_from_chars;

use chrono::{DateTime, Offset, TimeZone};
use chrono_tz::Tz;

verus! {

/// `(code, name, currency, continent, EU member)` for each country, keyed
/// by the two ASCII letters of its ISO code read as a big-endian `u16`
/// (continent 0 where the table has none).
pub open spec fn countries_spec() -> Seq<(u16, &'static str, &'static str, u16, bool)> {
    seq![
        (0x4144u16, "Andorra", "EUR", 0x4555u16, false),
        (0x4145u16, "United Arab Emirates", "AED", 0x4153u16, false),
        (0x4146u16, "Afghanistan", "AFN", 0x4153u16, false),
        (0x4147u16, "Antigua and Barbuda", "XCD", 0x4e41u16, false),
        (0x4149u16, "Anguilla", "XCD", 0x4e41u16, false),
        (0x414cu16, "Albania", "ALL", 0x4555u16, false),
        (0x414du16, "Armenia", "AMD", 0x4153u16, false),
        (0x414eu16, "Netherlands Antilles", "ANG", 0x4e41u16, false),
        (0x414fu16, "Angola", "AOA", 0x4146u16, false),
        (0x4151u16, "Antarctica", "USD", 0x414eu16, false),
        (0x4152u16, "Argentina", "ARS", 0x5341u16, false),
        (0x4153u16, "American Samoa", "USD", 0x4f43u16, false),
        (0x4154u16, "Austria", "EUR", 0x4555u16, true),
        (0x4155u16, "Australia", "AUD", 0x4f43u16, false),
        (0x4157u16, "Aruba", "AWG", 0x0u16, false),
        (0x415au16, "Azerbaijan", "AZN", 0x4153u16, false),
        (0x4241u16, "Bosnia and Herzegovina", "BAM", 0x4555u16, false),
        (0x4242u16, "Barbados", "BBD", 0x4e41u16, false),
        (0x4244u16, "Bangladesh", "BDT", 0x4153u16, false),
        (0x4245u16, "Belgium", "EUR", 0x4555u16, true),
        (0x4246u16, "Burkina Faso", "XOF", 0x4146u16, false),
        (0x4247u16, "Bulgaria", "BGN", 0x4555u16, true),
        (0x4248u16, "Bahrain", "BHD", 0x4153u16, false),
        (0x4249u16, "Burundi", "BIF", 0x4146u16, false),
        (0x424au16, "Benin", "XOF", 0x4146u16, false),
        (0x424du16, "Bermuda", "BMD", 0x4e41u16, false),
        (0x424eu16, "Brunei", "BND", 0x4153u16, false),
        (0x424fu16, "Bolivia", "BOB", 0x5341u16, false),
        (0x4252u16, "Brazil", "BRL", 0x5341u16, false),
        (0x4253u16, "Bahamas", "BSD", 0x4e41u16, false),
        (0x4254u16, "Bhutan", "BTN", 0x4153u16, false),
        (0x4256u16, "Bouvet Island", "NOK", 0x414eu16, false),
        (0x4257u16, "Botswana", "BWP", 0x4146u16, false),
        (0x4259u16, "Belarus", "BYR", 0x4555u16, false),
        (0x425au16, "Belize", "BZD", 0x4e41u16, false),
        (0x4341u16, "Canada", "CAD", 0x4e41u16, false),
        (0x4343u16, "Cocos (Keeling) Islands", "AUD", 0x4153u16, false),
        (0x4344u16, "Democratic Republic of the Congo", "CDF", 0x4146u16, false),
        (0x4346u16, "Central African Republic", "XAF", 0x4146u16, false),
        (0x4347u16, "Republic of the Congo", "XAF", 0x4146u16, false),
        (0x4348u16, "Switzerland", "CHF", 0x4555u16, false),
        (0x4349u16, "Ivory Coast", "XOF", 0x4146u16, false),
        (0x434bu16, "Cook Islands", "NZD", 0x4f43u16, false),
        (0x434cu16, "Chile", "CLP", 0x5341u16, false),
        (0x434du16, "Cameroon", "XAF", 0x4146u16, false),
        (0x434eu16, "China", "CNY", 0x4153u16, false),
        (0x434fu16, "Colombia", "COP", 0x5341u16, false),
        (0x4352u16, "Costa Rica", "CRC", 0x4e41u16, false),
        (0x4353u16, "Serbia and Montenegro", "RSD", 0x4555u16, false),
        (0x4355u16, "Cuba", "CUP", 0x4e41u16, false),
        (0x4356u16, "Cape Verde", "CVE", 0x4146u16, false),
        (0x4358u16, "Christmas Island", "AUD", 0x4153u16, false),
        (0x4359u16, "Cyprus", "EUR", 0x4555u16, true),
        (0x435au16, "Czech Republic", "CZK", 0x4555u16, true),
        (0x4445u16, "Germany", "EUR", 0x4555u16, true),
        (0x444au16, "Djibouti", "DJF", 0x4146u16, false),
        (0x444bu16, "Denmark", "DKK", 0x4555u16, true),
        (0x444du16, "Dominica", "XCD", 0x4e41u16, false),
        (0x444fu16, "Dominican Republic", "DOP", 0x4e41u16, false),
        (0x445au16, "Algeria", "DZD", 0x4146u16, false),
        (0x4543u16, "Ecuador", "USD", 0x5341u16, false),
        (0x4545u16, "Estonia", "EUR", 0x4555u16, true),
        (0x4547u16, "Egypt", "EGP", 0x4146u16, false),
        (0x4548u16, "Western Sahara", "MAD", 0x4146u16, false),
        (0x4552u16, "Eritrea", "ERN", 0x4146u16, false),
        (0x4553u16, "Spain", "EUR", 0x4555u16, true),
        (0x4554u16, "Ethiopia", "ETB", 0x4146u16, false),
        (0x4649u16, "Finland", "EUR", 0x4555u16, true),
        (0x464au16, "Fiji", "FJD", 0x4f43u16, false),
        (0x464bu16, "Falkland Islands", "FKP", 0x5341u16, false),
        (0x464du16, "Micronesia", "USD", 0x4f43u16, false),
        (0x464fu16, "Faroe Islands", "DKK", 0x0u16, false),
        (0x4652u16, "France", "EUR", 0x4555u16, true),
        (0x4741u16, "Gabon", "XAF", 0x4146u16, false),
        (0x4742u16, "United Kingdom", "GBP", 0x4555u16, false),
        (0x4744u16, "Grenada", "XCD", 0x4e41u16, false),
        (0x4745u16, "Georgia", "GEL", 0x4153u16, false),
        (0x4746u16, "French Guiana", "EUR", 0x5341u16, false),
        (0x4748u16, "Ghana", "GHS", 0x4146u16, false),
        (0x4749u16, "Gibraltar", "GIP", 0x4555u16, false),
        (0x474cu16, "Greenland", "DKK", 0x4e41u16, false),
        (0x474du16, "Gambia", "GMD", 0x4146u16, false),
        (0x474eu16, "Guinea", "GNF", 0x4146u16, false),
        (0x4750u16, "Guadeloupe", "EUR", 0x4e41u16, false),
        (0x4751u16, "Equatorial Guinea", "XAF", 0x4146u16, false),
        (0x4752u16, "Greece", "EUR", 0x4555u16, true),
        (0x4753u16, "South Georgia and the South Sandwich Islands", "GBP", 0x414eu16, false),
        (0x4754u16, "Guatemala", "GTQ", 0x4e41u16, false),
        (0x4755u16, "Guam", "USD", 0x4f43u16, false),
        (0x4757u16, "Guinea-Bissau", "XOF", 0x4146u16, false),
        (0x4759u16, "Guyana", "GYD", 0x5341u16, false),
        (0x484bu16, "Hong Kong", "HKD", 0x4153u16, false),
        (0x484du16, "Heard Island and McDonald Islands", "AUD", 0x414eu16, false),
        (0x484eu16, "Honduras", "HNL", 0x4e41u16, false),
        (0x4852u16, "Croatia", "HRK", 0x4555u16, true),
        (0x4854u16, "Haiti", "HTG", 0x4e41u16, false),
        (0x4855u16, "Hungary", "HUF", 0x4555u16, true),
        (0x4944u16, "Indonesia", "IDR", 0x4153u16, false),
        (0x4945u16, "Ireland", "EUR", 0x4555u16, true),
        (0x494cu16, "Israel", "ILS", 0x4153u16, false),
        (0x494eu16, "India", "INR", 0x4153u16, false),
        (0x494fu16, "British Indian Ocean Territory", "USD", 0x4153u16, false),
        (0x4951u16, "Iraq", "IQD", 0x4153u16, false),
        (0x4952u16, "Iran", "IRR", 0x4153u16, false),
        (0x4953u16, "Iceland", "ISK", 0x4555u16, false),
        (0x4954u16, "Italy", "EUR", 0x4555u16, true),
        (0x4a4du16, "Jamaica", "JMD", 0x4e41u16, false),
        (0x4a4fu16, "Jordan", "JOD", 0x4153u16, false),
        (0x4a50u16, "Japan", "JPY", 0x4153u16, false),
        (0x4b45u16, "Kenya", "KES", 0x4146u16, false),
        (0x4b47u16, "Kyrgyzstan", "KGS", 0x4153u16, false),
        (0x4b48u16, "Cambodia", "KHR", 0x4153u16, false),
        (0x4b49u16, "Kiribati", "AUD", 0x4f43u16, false),
        (0x4b4du16, "Comoros", "KMF", 0x4146u16, false),
        (0x4b4eu16, "Saint Kitts and Nevis", "XCD", 0x4e41u16, false),
        (0x4b50u16, "North Korea", "KPW", 0x4153u16, false),
        (0x4b52u16, "South Korea", "KRW", 0x4153u16, false),
        (0x4b57u16, "Kuwait", "KWD", 0x4153u16, false),
        (0x4b59u16, "Cayman Islands", "KYD", 0x4e41u16, false),
        (0x4b5au16, "Kazakhstan", "KZT", 0x4153u16, false),
        (0x4c41u16, "Laos", "LAK", 0x4153u16, false),
        (0x4c42u16, "Lebanon", "LBP", 0x4153u16, false),
        (0x4c43u16, "Saint Lucia", "XCD", 0x4e41u16, false),
        (0x4c49u16, "Liechtenstein", "CHF", 0x4555u16, false),
        (0x4c4bu16, "Sri Lanka", "LKR", 0x4153u16, false),
        (0x4c52u16, "Liberia", "LRD", 0x4146u16, false),
        (0x4c53u16, "Lesotho", "LSL", 0x4146u16, false),
        (0x4c54u16, "Lithuania", "EUR", 0x4555u16, true),
        (0x4c55u16, "Luxembourg", "EUR", 0x4555u16, true),
        (0x4c56u16, "Latvia", "EUR", 0x4555u16, true),
        (0x4c59u16, "Libya", "LYD", 0x4146u16, false),
        (0x4d41u16, "Morocco", "MAD", 0x4146u16, false),
        (0x4d43u16, "Monaco", "EUR", 0x4555u16, false),
        (0x4d44u16, "Moldova", "MDL", 0x4555u16, false),
        (0x4d45u16, "Montenegro", "", 0x4555u16, false),
        (0x4d47u16, "Madagascar", "MGA", 0x4146u16, false),
        (0x4d48u16, "Marshall Islands", "USD", 0x4f43u16, false),
        (0x4d4bu16, "Macedonia", "MKD", 0x4555u16, false),
        (0x4d4cu16, "Mali", "XOF", 0x4146u16, false),
        (0x4d4du16, "Myanmar", "MMK", 0x4153u16, false),
        (0x4d4eu16, "Mongolia", "MNT", 0x4153u16, false),
        (0x4d4fu16, "Macau", "MOP", 0x4153u16, false),
        (0x4d50u16, "Northern Mariana Islands", "USD", 0x4f43u16, false),
        (0x4d51u16, "Martinique", "EUR", 0x4e41u16, false),
        (0x4d52u16, "Mauritania", "MRU", 0x4146u16, false),
        (0x4d53u16, "Montserrat", "XCD", 0x4e41u16, false),
        (0x4d54u16, "Malta", "EUR", 0x4555u16, true),
        (0x4d55u16, "Mauritius", "MUR", 0x4146u16, false),
        (0x4d56u16, "Maldives", "MVR", 0x4153u16, false),
        (0x4d57u16, "Malawi", "MWK", 0x4146u16, false),
        (0x4d58u16, "Mexico", "MXN", 0x4e41u16, false),
        (0x4d59u16, "Malaysia", "MYR", 0x4153u16, false),
        (0x4d5au16, "Mozambique", "MZN", 0x4146u16, false),
        (0x4e41u16, "Namibia", "NAD", 0x4146u16, false),
        (0x4e43u16, "New Caledonia", "XPF", 0x4f43u16, false),
        (0x4e45u16, "Niger", "XOF", 0x4146u16, false),
        (0x4e46u16, "Norfolk Island", "AUD", 0x4f43u16, false),
        (0x4e47u16, "Nigeria", "NGN", 0x4146u16, false),
        (0x4e49u16, "Nicaragua", "NIO", 0x4e41u16, false),
        (0x4e4cu16, "Netherlands", "EUR", 0x4555u16, true),
        (0x4e4fu16, "Norway", "NOK", 0x4555u16, false),
        (0x4e50u16, "Nepal", "NPR", 0x4153u16, false),
        (0x4e52u16, "Nauru", "AUD", 0x4f43u16, false),
        (0x4e55u16, "Niue", "NZD", 0x4f43u16, false),
        (0x4e5au16, "New Zealand", "NZD", 0x4f43u16, false),
        (0x4f4du16, "Oman", "OMR", 0x4153u16, false),
        (0x5041u16, "Panama", "PAB", 0x4e41u16, false),
        (0x5045u16, "Peru", "PEN", 0x5341u16, false),
        (0x5046u16, "French Polynesia", "XPF", 0x4f43u16, false),
        (0x5047u16, "Papua New Guinea", "PGK", 0x4f43u16, false),
        (0x5048u16, "Philippines", "PHP", 0x4153u16, false),
        (0x504bu16, "Pakistan", "PKR", 0x4153u16, false),
        (0x504cu16, "Poland", "PLN", 0x4555u16, true),
        (0x504du16, "Saint Pierre and Miquelon", "EUR", 0x4e41u16, false),
        (0x504eu16, "Pitcairn", "NZD", 0x4f43u16, false),
        (0x5052u16, "Puerto Rico", "USD", 0x4e41u16, false),
        (0x5053u16, "Palestinian Territory", "ILS", 0x4153u16, false),
        (0x5054u16, "Portugal", "EUR", 0x4555u16, true),
        (0x5057u16, "Palau", "USD", 0x4f43u16, false),
        (0x5059u16, "Paraguay", "PYG", 0x5341u16, false),
        (0x5141u16, "Qatar", "QAR", 0x4153u16, false),
        (0x5245u16, "Reunion", "EUR", 0x0u16, false),
        (0x524fu16, "Romania", "RON", 0x4555u16, true),
        (0x5253u16, "Serbia", "", 0x4555u16, false),
        (0x5255u16, "Russia", "RUB", 0x4555u16, false),
        (0x5257u16, "Rwanda", "RWF", 0x4146u16, false),
        (0x5341u16, "Saudi Arabia", "SAR", 0x4153u16, false),
        (0x5342u16, "Solomon Islands", "SBD", 0x4f43u16, false),
        (0x5343u16, "Seychelles", "SCR", 0x4146u16, false),
        (0x5344u16, "Sudan", "SDG", 0x4146u16, false),
        (0x5345u16, "Sweden", "SEK", 0x4555u16, true),
        (0x5347u16, "Singapore", "SGD", 0x4153u16, false),
        (0x5348u16, "Saint Helena", "SHP", 0x0u16, false),
        (0x5349u16, "Slovenia", "EUR", 0x4555u16, true),
        (0x534au16, "Svalbard and Jan Mayen", "NOK", 0x4555u16, false),
        (0x534bu16, "Slovakia", "EUR", 0x4555u16, true),
        (0x534cu16, "Sierra Leone", "SLL", 0x4146u16, false),
        (0x534du16, "San Marino", "EUR", 0x4555u16, false),
        (0x534eu16, "Senegal", "XOF", 0x4146u16, false),
        (0x534fu16, "Somalia", "SOS", 0x4146u16, false),
        (0x5352u16, "Suriname", "SRD", 0x5341u16, false),
        (0x5354u16, "São Tomé and Príncipe", "STN", 0x4146u16, false),
        (0x5356u16, "El Salvador", "SVC", 0x4e41u16, false),
        (0x5359u16, "Syria", "SYP", 0x4153u16, false),
        (0x535au16, "Swaziland", "SZL", 0x4146u16, false),
        (0x5443u16, "Turks and Caicos Islands", "USD", 0x4e41u16, false),
        (0x5444u16, "Chad", "XAF", 0x4146u16, false),
        (0x5446u16, "French Southern Territories", "EUR", 0x414eu16, false),
        (0x5447u16, "Togo", "XOF", 0x4146u16, false),
        (0x5448u16, "Thailand", "THB", 0x4153u16, false),
        (0x544au16, "Tajikistan", "TJS", 0x4153u16, false),
        (0x544bu16, "Tokelau", "NZD", 0x4f43u16, false),
        (0x544cu16, "East Timor", "USD", 0x4153u16, false),
        (0x544du16, "Turkmenistan", "TMT", 0x4153u16, false),
        (0x544eu16, "Tunisia", "TND", 0x4146u16, false),
        (0x544fu16, "Tonga", "TOP", 0x4f43u16, false),
        (0x5452u16, "Turkey", "TRY", 0x4153u16, false),
        (0x5454u16, "Trinidad and Tobago", "TTD", 0x0u16, false),
        (0x5456u16, "Tuvalu", "AUD", 0x4f43u16, false),
        (0x5457u16, "Taiwan", "TWD", 0x4153u16, false),
        (0x545au16, "Tanzania", "TZS", 0x4146u16, false),
        (0x5541u16, "Ukraine", "UAH", 0x4555u16, false),
        (0x5547u16, "Uganda", "UGX", 0x4146u16, false),
        (0x554du16, "United States Minor Outlying Islands", "USD", 0x4e41u16, false),
        (0x5553u16, "United States", "USD", 0x4e41u16, false),
        (0x5559u16, "Uruguay", "UYU", 0x5341u16, false),
        (0x555au16, "Uzbekistan", "UZS", 0x4153u16, false),
        (0x5641u16, "Vatican City", "EUR", 0x4555u16, false),
        (0x5643u16, "Saint Vincent and the Grenadines", "XCD", 0x4e41u16, false),
        (0x5645u16, "Venezuela", "VES", 0x5341u16, false),
        (0x5647u16, "British Virgin Islands", "USD", 0x0u16, false),
        (0x5649u16, "U.S. Virgin Islands", "USD", 0x4e41u16, false),
        (0x564eu16, "Vietnam", "VND", 0x4153u16, false),
        (0x5655u16, "Vanuatu", "VUV", 0x4f43u16, false),
        (0x5746u16, "Wallis and Futuna", "XPF", 0x4f43u16, false),
        (0x5753u16, "Samoa", "WST", 0x4f43u16, false),
        (0x5945u16, "Yemen", "YER", 0x4153u16, false),
        (0x5954u16, "Mayotte", "EUR", 0x0u16, false),
        (0x5a41u16, "South Africa", "ZAR", 0x4146u16, false),
        (0x5a4du16, "Zambia", "ZMW", 0x4146u16, false),
        (0x5a57u16, "Zimbabwe", "ZWL", 0x4146u16, false),
    ]
}

fn countries() -> (r: Vec<(u16, &'static str, &'static str, u16, bool)>)
    ensures
        r@ == countries_spec(),
{
    vec![
        (0x4144u16, "Andorra", "EUR", 0x4555u16, false),
        (0x4145u16, "United Arab Emirates", "AED", 0x4153u16, false),
        (0x4146u16, "Afghanistan", "AFN", 0x4153u16, false),
        (0x4147u16, "Antigua and Barbuda", "XCD", 0x4e41u16, false),
        (0x4149u16, "Anguilla", "XCD", 0x4e41u16, false),
        (0x414cu16, "Albania", "ALL", 0x4555u16, false),
        (0x414du16, "Armenia", "AMD", 0x4153u16, false),
        (0x414eu16, "Netherlands Antilles", "ANG", 0x4e41u16, false),
        (0x414fu16, "Angola", "AOA", 0x4146u16, false),
        (0x4151u16, "Antarctica", "USD", 0x414eu16, false),
        (0x4152u16, "Argentina", "ARS", 0x5341u16, false),
        (0x4153u16, "American Samoa", "USD", 0x4f43u16, false),
        (0x4154u16, "Austria", "EUR", 0x4555u16, true),
        (0x4155u16, "Australia", "AUD", 0x4f43u16, false),
        (0x4157u16, "Aruba", "AWG", 0x0u16, false),
        (0x415au16, "Azerbaijan", "AZN", 0x4153u16, false),
        (0x4241u16, "Bosnia and Herzegovina", "BAM", 0x4555u16, false),
        (0x4242u16, "Barbados", "BBD", 0x4e41u16, false),
        (0x4244u16, "Bangladesh", "BDT", 0x4153u16, false),
        (0x4245u16, "Belgium", "EUR", 0x4555u16, true),
        (0x4246u16, "Burkina Faso", "XOF", 0x4146u16, false),
        (0x4247u16, "Bulgaria", "BGN", 0x4555u16, true),
        (0x4248u16, "Bahrain", "BHD", 0x4153u16, false),
        (0x4249u16, "Burundi", "BIF", 0x4146u16, false),
        (0x424au16, "Benin", "XOF", 0x4146u16, false),
        (0x424du16, "Bermuda", "BMD", 0x4e41u16, false),
        (0x424eu16, "Brunei", "BND", 0x4153u16, false),
        (0x424fu16, "Bolivia", "BOB", 0x5341u16, false),
        (0x4252u16, "Brazil", "BRL", 0x5341u16, false),
        (0x4253u16, "Bahamas", "BSD", 0x4e41u16, false),
        (0x4254u16, "Bhutan", "BTN", 0x4153u16, false),
        (0x4256u16, "Bouvet Island", "NOK", 0x414eu16, false),
        (0x4257u16, "Botswana", "BWP", 0x4146u16, false),
        (0x4259u16, "Belarus", "BYR", 0x4555u16, false),
        (0x425au16, "Belize", "BZD", 0x4e41u16, false),
        (0x4341u16, "Canada", "CAD", 0x4e41u16, false),
        (0x4343u16, "Cocos (Keeling) Islands", "AUD", 0x4153u16, false),
        (0x4344u16, "Democratic Republic of the Congo", "CDF", 0x4146u16, false),
        (0x4346u16, "Central African Republic", "XAF", 0x4146u16, false),
        (0x4347u16, "Republic of the Congo", "XAF", 0x4146u16, false),
        (0x4348u16, "Switzerland", "CHF", 0x4555u16, false),
        (0x4349u16, "Ivory Coast", "XOF", 0x4146u16, false),
        (0x434bu16, "Cook Islands", "NZD", 0x4f43u16, false),
        (0x434cu16, "Chile", "CLP", 0x5341u16, false),
        (0x434du16, "Cameroon", "XAF", 0x4146u16, false),
        (0x434eu16, "China", "CNY", 0x4153u16, false),
        (0x434fu16, "Colombia", "COP", 0x5341u16, false),
        (0x4352u16, "Costa Rica", "CRC", 0x4e41u16, false),
        (0x4353u16, "Serbia and Montenegro", "RSD", 0x4555u16, false),
        (0x4355u16, "Cuba", "CUP", 0x4e41u16, false),
        (0x4356u16, "Cape Verde", "CVE", 0x4146u16, false),
        (0x4358u16, "Christmas Island", "AUD", 0x4153u16, false),
        (0x4359u16, "Cyprus", "EUR", 0x4555u16, true),
        (0x435au16, "Czech Republic", "CZK", 0x4555u16, true),
        (0x4445u16, "Germany", "EUR", 0x4555u16, true),
        (0x444au16, "Djibouti", "DJF", 0x4146u16, false),
        (0x444bu16, "Denmark", "DKK", 0x4555u16, true),
        (0x444du16, "Dominica", "XCD", 0x4e41u16, false),
        (0x444fu16, "Dominican Republic", "DOP", 0x4e41u16, false),
        (0x445au16, "Algeria", "DZD", 0x4146u16, false),
        (0x4543u16, "Ecuador", "USD", 0x5341u16, false),
        (0x4545u16, "Estonia", "EUR", 0x4555u16, true),
        (0x4547u16, "Egypt", "EGP", 0x4146u16, false),
        (0x4548u16, "Western Sahara", "MAD", 0x4146u16, false),
        (0x4552u16, "Eritrea", "ERN", 0x4146u16, false),
        (0x4553u16, "Spain", "EUR", 0x4555u16, true),
        (0x4554u16, "Ethiopia", "ETB", 0x4146u16, false),
        (0x4649u16, "Finland", "EUR", 0x4555u16, true),
        (0x464au16, "Fiji", "FJD", 0x4f43u16, false),
        (0x464bu16, "Falkland Islands", "FKP", 0x5341u16, false),
        (0x464du16, "Micronesia", "USD", 0x4f43u16, false),
        (0x464fu16, "Faroe Islands", "DKK", 0x0u16, false),
        (0x4652u16, "France", "EUR", 0x4555u16, true),
        (0x4741u16, "Gabon", "XAF", 0x4146u16, false),
        (0x4742u16, "United Kingdom", "GBP", 0x4555u16, false),
        (0x4744u16, "Grenada", "XCD", 0x4e41u16, false),
        (0x4745u16, "Georgia", "GEL", 0x4153u16, false),
        (0x4746u16, "French Guiana", "EUR", 0x5341u16, false),
        (0x4748u16, "Ghana", "GHS", 0x4146u16, false),
        (0x4749u16, "Gibraltar", "GIP", 0x4555u16, false),
        (0x474cu16, "Greenland", "DKK", 0x4e41u16, false),
        (0x474du16, "Gambia", "GMD", 0x4146u16, false),
        (0x474eu16, "Guinea", "GNF", 0x4146u16, false),
        (0x4750u16, "Guadeloupe", "EUR", 0x4e41u16, false),
        (0x4751u16, "Equatorial Guinea", "XAF", 0x4146u16, false),
        (0x4752u16, "Greece", "EUR", 0x4555u16, true),
        (0x4753u16, "South Georgia and the South Sandwich Islands", "GBP", 0x414eu16, false),
        (0x4754u16, "Guatemala", "GTQ", 0x4e41u16, false),
        (0x4755u16, "Guam", "USD", 0x4f43u16, false),
        (0x4757u16, "Guinea-Bissau", "XOF", 0x4146u16, false),
        (0x4759u16, "Guyana", "GYD", 0x5341u16, false),
        (0x484bu16, "Hong Kong", "HKD", 0x4153u16, false),
        (0x484du16, "Heard Island and McDonald Islands", "AUD", 0x414eu16, false),
        (0x484eu16, "Honduras", "HNL", 0x4e41u16, false),
        (0x4852u16, "Croatia", "HRK", 0x4555u16, true),
        (0x4854u16, "Haiti", "HTG", 0x4e41u16, false),
        (0x4855u16, "Hungary", "HUF", 0x4555u16, true),
        (0x4944u16, "Indonesia", "IDR", 0x4153u16, false),
        (0x4945u16, "Ireland", "EUR", 0x4555u16, true),
        (0x494cu16, "Israel", "ILS", 0x4153u16, false),
        (0x494eu16, "India", "INR", 0x4153u16, false),
        (0x494fu16, "British Indian Ocean Territory", "USD", 0x4153u16, false),
        (0x4951u16, "Iraq", "IQD", 0x4153u16, false),
        (0x4952u16, "Iran", "IRR", 0x4153u16, false),
        (0x4953u16, "Iceland", "ISK", 0x4555u16, false),
        (0x4954u16, "Italy", "EUR", 0x4555u16, true),
        (0x4a4du16, "Jamaica", "JMD", 0x4e41u16, false),
        (0x4a4fu16, "Jordan", "JOD", 0x4153u16, false),
        (0x4a50u16, "Japan", "JPY", 0x4153u16, false),
        (0x4b45u16, "Kenya", "KES", 0x4146u16, false),
        (0x4b47u16, "Kyrgyzstan", "KGS", 0x4153u16, false),
        (0x4b48u16, "Cambodia", "KHR", 0x4153u16, false),
        (0x4b49u16, "Kiribati", "AUD", 0x4f43u16, false),
        (0x4b4du16, "Comoros", "KMF", 0x4146u16, false),
        (0x4b4eu16, "Saint Kitts and Nevis", "XCD", 0x4e41u16, false),
        (0x4b50u16, "North Korea", "KPW", 0x4153u16, false),
        (0x4b52u16, "South Korea", "KRW", 0x4153u16, false),
        (0x4b57u16, "Kuwait", "KWD", 0x4153u16, false),
        (0x4b59u16, "Cayman Islands", "KYD", 0x4e41u16, false),
        (0x4b5au16, "Kazakhstan", "KZT", 0x4153u16, false),
        (0x4c41u16, "Laos", "LAK", 0x4153u16, false),
        (0x4c42u16, "Lebanon", "LBP", 0x4153u16, false),
        (0x4c43u16, "Saint Lucia", "XCD", 0x4e41u16, false),
        (0x4c49u16, "Liechtenstein", "CHF", 0x4555u16, false),
        (0x4c4bu16, "Sri Lanka", "LKR", 0x4153u16, false),
        (0x4c52u16, "Liberia", "LRD", 0x4146u16, false),
        (0x4c53u16, "Lesotho", "LSL", 0x4146u16, false),
        (0x4c54u16, "Lithuania", "EUR", 0x4555u16, true),
        (0x4c55u16, "Luxembourg", "EUR", 0x4555u16, true),
        (0x4c56u16, "Latvia", "EUR", 0x4555u16, true),
        (0x4c59u16, "Libya", "LYD", 0x4146u16, false),
        (0x4d41u16, "Morocco", "MAD", 0x4146u16, false),
        (0x4d43u16, "Monaco", "EUR", 0x4555u16, false),
        (0x4d44u16, "Moldova", "MDL", 0x4555u16, false),
        (0x4d45u16, "Montenegro", "", 0x4555u16, false),
        (0x4d47u16, "Madagascar", "MGA", 0x4146u16, false),
        (0x4d48u16, "Marshall Islands", "USD", 0x4f43u16, false),
        (0x4d4bu16, "Macedonia", "MKD", 0x4555u16, false),
        (0x4d4cu16, "Mali", "XOF", 0x4146u16, false),
        (0x4d4du16, "Myanmar", "MMK", 0x4153u16, false),
        (0x4d4eu16, "Mongolia", "MNT", 0x4153u16, false),
        (0x4d4fu16, "Macau", "MOP", 0x4153u16, false),
        (0x4d50u16, "Northern Mariana Islands", "USD", 0x4f43u16, false),
        (0x4d51u16, "Martinique", "EUR", 0x4e41u16, false),
        (0x4d52u16, "Mauritania", "MRU", 0x4146u16, false),
        (0x4d53u16, "Montserrat", "XCD", 0x4e41u16, false),
        (0x4d54u16, "Malta", "EUR", 0x4555u16, true),
        (0x4d55u16, "Mauritius", "MUR", 0x4146u16, false),
        (0x4d56u16, "Maldives", "MVR", 0x4153u16, false),
        (0x4d57u16, "Malawi", "MWK", 0x4146u16, false),
        (0x4d58u16, "Mexico", "MXN", 0x4e41u16, false),
        (0x4d59u16, "Malaysia", "MYR", 0x4153u16, false),
        (0x4d5au16, "Mozambique", "MZN", 0x4146u16, false),
        (0x4e41u16, "Namibia", "NAD", 0x4146u16, false),
        (0x4e43u16, "New Caledonia", "XPF", 0x4f43u16, false),
        (0x4e45u16, "Niger", "XOF", 0x4146u16, false),
        (0x4e46u16, "Norfolk Island", "AUD", 0x4f43u16, false),
        (0x4e47u16, "Nigeria", "NGN", 0x4146u16, false),
        (0x4e49u16, "Nicaragua", "NIO", 0x4e41u16, false),
        (0x4e4cu16, "Netherlands", "EUR", 0x4555u16, true),
        (0x4e4fu16, "Norway", "NOK", 0x4555u16, false),
        (0x4e50u16, "Nepal", "NPR", 0x4153u16, false),
        (0x4e52u16, "Nauru", "AUD", 0x4f43u16, false),
        (0x4e55u16, "Niue", "NZD", 0x4f43u16, false),
        (0x4e5au16, "New Zealand", "NZD", 0x4f43u16, false),
        (0x4f4du16, "Oman", "OMR", 0x4153u16, false),
        (0x5041u16, "Panama", "PAB", 0x4e41u16, false),
        (0x5045u16, "Peru", "PEN", 0x5341u16, false),
        (0x5046u16, "French Polynesia", "XPF", 0x4f43u16, false),
        (0x5047u16, "Papua New Guinea", "PGK", 0x4f43u16, false),
        (0x5048u16, "Philippines", "PHP", 0x4153u16, false),
        (0x504bu16, "Pakistan", "PKR", 0x4153u16, false),
        (0x504cu16, "Poland", "PLN", 0x4555u16, true),
        (0x504du16, "Saint Pierre and Miquelon", "EUR", 0x4e41u16, false),
        (0x504eu16, "Pitcairn", "NZD", 0x4f43u16, false),
        (0x5052u16, "Puerto Rico", "USD", 0x4e41u16, false),
        (0x5053u16, "Palestinian Territory", "ILS", 0x4153u16, false),
        (0x5054u16, "Portugal", "EUR", 0x4555u16, true),
        (0x5057u16, "Palau", "USD", 0x4f43u16, false),
        (0x5059u16, "Paraguay", "PYG", 0x5341u16, false),
        (0x5141u16, "Qatar", "QAR", 0x4153u16, false),
        (0x5245u16, "Reunion", "EUR", 0x0u16, false),
        (0x524fu16, "Romania", "RON", 0x4555u16, true),
        (0x5253u16, "Serbia", "", 0x4555u16, false),
        (0x5255u16, "Russia", "RUB", 0x4555u16, false),
        (0x5257u16, "Rwanda", "RWF", 0x4146u16, false),
        (0x5341u16, "Saudi Arabia", "SAR", 0x4153u16, false),
        (0x5342u16, "Solomon Islands", "SBD", 0x4f43u16, false),
        (0x5343u16, "Seychelles", "SCR", 0x4146u16, false),
        (0x5344u16, "Sudan", "SDG", 0x4146u16, false),
        (0x5345u16, "Sweden", "SEK", 0x4555u16, true),
        (0x5347u16, "Singapore", "SGD", 0x4153u16, false),
        (0x5348u16, "Saint Helena", "SHP", 0x0u16, false),
        (0x5349u16, "Slovenia", "EUR", 0x4555u16, true),
        (0x534au16, "Svalbard and Jan Mayen", "NOK", 0x4555u16, false),
        (0x534bu16, "Slovakia", "EUR", 0x4555u16, true),
        (0x534cu16, "Sierra Leone", "SLL", 0x4146u16, false),
        (0x534du16, "San Marino", "EUR", 0x4555u16, false),
        (0x534eu16, "Senegal", "XOF", 0x4146u16, false),
        (0x534fu16, "Somalia", "SOS", 0x4146u16, false),
        (0x5352u16, "Suriname", "SRD", 0x5341u16, false),
        (0x5354u16, "São Tomé and Príncipe", "STN", 0x4146u16, false),
        (0x5356u16, "El Salvador", "SVC", 0x4e41u16, false),
        (0x5359u16, "Syria", "SYP", 0x4153u16, false),
        (0x535au16, "Swaziland", "SZL", 0x4146u16, false),
        (0x5443u16, "Turks and Caicos Islands", "USD", 0x4e41u16, false),
        (0x5444u16, "Chad", "XAF", 0x4146u16, false),
        (0x5446u16, "French Southern Territories", "EUR", 0x414eu16, false),
        (0x5447u16, "Togo", "XOF", 0x4146u16, false),
        (0x5448u16, "Thailand", "THB", 0x4153u16, false),
        (0x544au16, "Tajikistan", "TJS", 0x4153u16, false),
        (0x544bu16, "Tokelau", "NZD", 0x4f43u16, false),
        (0x544cu16, "East Timor", "USD", 0x4153u16, false),
        (0x544du16, "Turkmenistan", "TMT", 0x4153u16, false),
        (0x544eu16, "Tunisia", "TND", 0x4146u16, false),
        (0x544fu16, "Tonga", "TOP", 0x4f43u16, false),
        (0x5452u16, "Turkey", "TRY", 0x4153u16, false),
        (0x5454u16, "Trinidad and Tobago", "TTD", 0x0u16, false),
        (0x5456u16, "Tuvalu", "AUD", 0x4f43u16, false),
        (0x5457u16, "Taiwan", "TWD", 0x4153u16, false),
        (0x545au16, "Tanzania", "TZS", 0x4146u16, false),
        (0x5541u16, "Ukraine", "UAH", 0x4555u16, false),
        (0x5547u16, "Uganda", "UGX", 0x4146u16, false),
        (0x554du16, "United States Minor Outlying Islands", "USD", 0x4e41u16, false),
        (0x5553u16, "United States", "USD", 0x4e41u16, false),
        (0x5559u16, "Uruguay", "UYU", 0x5341u16, false),
        (0x555au16, "Uzbekistan", "UZS", 0x4153u16, false),
        (0x5641u16, "Vatican City", "EUR", 0x4555u16, false),
        (0x5643u16, "Saint Vincent and the Grenadines", "XCD", 0x4e41u16, false),
        (0x5645u16, "Venezuela", "VES", 0x5341u16, false),
        (0x5647u16, "British Virgin Islands", "USD", 0x0u16, false),
        (0x5649u16, "U.S. Virgin Islands", "USD", 0x4e41u16, false),
        (0x564eu16, "Vietnam", "VND", 0x4153u16, false),
        (0x5655u16, "Vanuatu", "VUV", 0x4f43u16, false),
        (0x5746u16, "Wallis and Futuna", "XPF", 0x4f43u16, false),
        (0x5753u16, "Samoa", "WST", 0x4f43u16, false),
        (0x5945u16, "Yemen", "YER", 0x4153u16, false),
        (0x5954u16, "Mayotte", "EUR", 0x0u16, false),
        (0x5a41u16, "South Africa", "ZAR", 0x4146u16, false),
        (0x5a4du16, "Zambia", "ZMW", 0x4146u16, false),
        (0x5a57u16, "Zimbabwe", "ZWL", 0x4146u16, false),
    ]
}

/// `(code, code letters, name)` for each continent.
pub open spec fn continents_spec() -> Seq<(u16, &'static str, &'static str)> {
    seq![
        (0x4146u16, "AF", "Africa"),
        (0x414eu16, "AN", "Antarctica"),
        (0x4153u16, "AS", "Asia"),
        (0x4555u16, "EU", "Europe"),
        (0x4e41u16, "NA", "North America"),
        (0x4f43u16, "OC", "Oceania"),
        (0x5341u16, "SA", "South America"),
    ]
}

fn continents() -> (r: Vec<(u16, &'static str, &'static str)>)
    ensures
        r@ == continents_spec(),
{
    vec![
        (0x4146u16, "AF", "Africa"),
        (0x414eu16, "AN", "Antarctica"),
        (0x4153u16, "AS", "Asia"),
        (0x4555u16, "EU", "Europe"),
        (0x4e41u16, "NA", "North America"),
        (0x4f43u16, "OC", "Oceania"),
        (0x5341u16, "SA", "South America"),
    ]
}

/// The first table entry from `i` on whose code is `key`.
pub open spec fn country_from(key: u16, i: int) -> Option<int>
    decreases countries_spec().len() - i,
{
    if i < 0 || i >= countries_spec().len() {
        None
    } else if countries_spec()[i].0 == key {
        Some(i)
    } else {
        country_from(key, i + 1)
    }
}

/// The table entry of a country code text: its UTF-8 form must be two
/// bytes, read as a big-endian key.
pub open spec fn country_index(code: Seq<char>) -> Option<int> {
    let b = encode_utf8(code);
    if b.len() != 2 {
        None
    } else {
        country_from((b[0] as int * 256 + b[1] as int) as u16, 0)
    }
}

/// The index of the country entry for a code.
fn country_info(code: &str) -> (r: Option<usize>)
    ensures
        match r {
            None => country_index(code@) is None,
            Some(i) => country_index(code@) == Some(i as int) && i < countries_spec().len(),
        },
{
    let b = code.as_bytes();
    if b.len() != 2 {
        return None;
    }
    let key = (b[0] as u16) * 256 + b[1] as u16;
    let t = countries();
    proof {
        assert(country_index(code@) == country_from(key, 0));
    }
    let mut i: usize = 0;
    while i < t.len()
        invariant
            i <= t@.len(),
            t@ == countries_spec(),
            country_index(code@) == country_from(key, 0),
            country_from(key, 0) == country_from(key, i as int),
        decreases t@.len() - i,
    {
        if t[i].0 == key {
            return Some(i);
        }
        i = i + 1;
    }
    None
}

/// The first continent entry whose code is `c`.
pub open spec fn continent_from(c: u16, i: int) -> Option<int>
    decreases continents_spec().len() - i,
{
    if i < 0 || i >= continents_spec().len() {
        None
    } else if continents_spec()[i].0 == c {
        Some(i)
    } else {
        continent_from(c, i + 1)
    }
}

fn continent_index(c: u16) -> (r: Option<usize>)
    ensures
        match r {
            None => continent_from(c, 0) is None,
            Some(i) => continent_from(c, 0) == Some(i as int) && i < continents_spec().len(),
        },
{
    let t = continents();
    let mut i: usize = 0;
    while i < t.len()
        invariant
            i <= t@.len(),
            t@ == continents_spec(),
            continent_from(c, 0) == continent_from(c, i as int),
        decreases t@.len() - i,
    {
        if t[i].0 == c {
            return Some(i);
        }
        i = i + 1;
    }
    None
}

/// The two-letter code of continent `c`, or empty.
pub open spec fn cont_code_spec(c: u16) -> Seq<char> {
    match continent_from(c, 0) {
        Some(j) => continents_spec()[j].1@,
        None => ""@,
    }
}

/// The name of continent `c`, if it is one.
pub open spec fn cont_name_spec(c: u16) -> Option<Seq<char>> {
    match continent_from(c, 0) {
        Some(j) => Some(continents_spec()[j].2@),
        None => None,
    }
}

fn cont_code(c: u16) -> (r: &'static str)
    ensures
        r@ == cont_code_spec(c),
{
    match continent_index(c) {
        Some(j) => {
            let t = continents();
            t[j].1
        },
        None => "",
    }
}

fn cont_name(c: u16) -> (r: Option<&'static str>)
    ensures
        match r {
            None => cont_name_spec(c) is None,
            Some(n) => cont_name_spec(c) == Some(n@),
        },
{
    match continent_index(c) {
        Some(j) => {
            let t = continents();
            Some(t[j].2)
        },
        None => None,
    }
}

/// The two letters that a 16-bit continent code spells, high byte first.
pub open spec fn code_letters(c: u16) -> Seq<char> {
    seq![((c / 256) as u8) as char, ((c % 256) as u8) as char]
}

/// A continent is found by its full 16-bit code: the entry found for `c`
/// carries `c`, its two-letter code spells `c`, and each of the seven
/// continent codes is found.
pub proof fn law_continent_by_full_code(c: u16)
    ensures
        continent_from(c, 0) matches Some(j) ==> 0 <= j < continents_spec().len()
            && continents_spec()[j].0 == c,
        continent_from(c, 0) is Some ==> cont_code_spec(c) == code_letters(c),
        (exists|j: int| 0 <= j < continents_spec().len() && #[trigger] continents_spec()[j].0 == c)
            ==> continent_from(c, 0) is Some,
{
    reveal_with_fuel(continent_from, 8);
    reveal_strlit("AF");
    reveal_strlit("AN");
    reveal_strlit("AS");
    reveal_strlit("EU");
    reveal_strlit("NA");
    reveal_strlit("OC");
    reveal_strlit("SA");
    assert(code_letters(0x4146) =~= "AF"@);
    assert(code_letters(0x414e) =~= "AN"@);
    assert(code_letters(0x4153) =~= "AS"@);
    assert(code_letters(0x4555) =~= "EU"@);
    assert(code_letters(0x4e41) =~= "NA"@);
    assert(code_letters(0x4f43) =~= "OC"@);
    assert(code_letters(0x5341) =~= "SA"@);
}

// ---------------------------------------------------------------------------
// UTC offsets
// ---------------------------------------------------------------------------

/// The character of a decimal digit.
pub open spec fn digit(d: nat) -> char {
    (48 + d) as char
}

/// The decimal digits of `n`.
pub open spec fn dec(n: nat) -> Seq<char>
    decreases n,
{
    if n < 10 {
        seq![digit(n)]
    } else {
        dec(n / 10) + seq![digit(n % 10)]
    }
}

/// `UTC`, the sign and the whole hours of `s` seconds (hours cut toward
/// zero, so less than an hour west reads `+0`), then `:` and two digits of
/// minutes when there are minutes.
pub open spec fn fmt_offset_spec(s: int) -> Seq<char> {
    let a = if s < 0 {
        -s
    } else {
        s
    };
    let h = (a / 3600) as nat;
    let m = ((a % 3600) / 60) as nat;
    let sign = if s < 0 && h > 0 {
        '-'
    } else {
        '+'
    };
    let head = seq!['U', 'T', 'C', sign] + dec(h);
    if m == 0 {
        head
    } else if m < 10 {
        head + seq![':', '0'] + dec(m)
    } else {
        head + seq![':'] + dec(m)
    }
}

fn digit_char(d: u32) -> (r: char)
    requires
        d < 10,
    ensures
        r == digit(d as nat),
{
    crate::text::char_from_ascii(48 + d)
}

fn push_dec(out: &mut Vec<char>, n: u32)
    ensures
        final(out)@ == old(out)@ + dec(n as nat),
    decreases n,
{
    if n >= 10 {
        push_dec(out, n / 10);
    }
    let ghost before = out@;
    out.push(digit_char(n % 10));
    proof {
        if n >= 10 {
            assert(old(out)@ + dec(n as nat) =~= old(out)@ + dec((n / 10) as nat) + seq![digit((n % 10) as nat)]);
        } else {
            assert(old(out)@ + dec(n as nat) =~= before.push(digit((n % 10) as nat)));
        }
    }
}

/// A UTC offset in seconds written as `UTC+1`, `UTC-3:30` or `UTC+5:45`.
pub fn fmt_offset(s: i32) -> (r: String)
    requires
        s != i32::MIN,
    ensures
        r@ == fmt_offset_spec(s as int),
{
    let a: u32 = if s < 0 {
        (-s) as u32
    } else {
        s as u32
    };
    let h = a / 3600;
    let m = (a % 3600) / 60;
    let mut out: Vec<char> = Vec::new();
    out.push('U');
    out.push('T');
    out.push('C');
    if s < 0 && h > 0 {
        out.push('-');
    } else {
        out.push('+');
    }
    push_dec(&mut out, h);
    if m != 0 {
        out.push(':');
        if m < 10 {
            out.push('0');
        }
        push_dec(&mut out, m);
    }
    proof {
        let sign = if s < 0 && h > 0 {
            '-'
        } else {
            '+'
        };
        assert(seq!['U', 'T', 'C'].push(sign) =~= seq!['U', 'T', 'C', sign]);
        if m != 0 {
            if m < 10 {
                assert(seq!['U', 'T', 'C', sign] + dec(h as nat) + seq![':', '0'] + dec(m as nat)
                    =~= (seq!['U', 'T', 'C', sign] + dec(h as nat)).push(':').push('0') + dec(
                    m as nat,
                ));
            } else {
                assert(seq!['U', 'T', 'C', sign] + dec(h as nat) + seq![':'] + dec(m as nat)
                    =~= (seq!['U', 'T', 'C', sign] + dec(h as nat)).push(':') + dec(m as nat));
            }
        }
    }
    string_from_chars(&out)
}

/// Daylight saving is on when the current offset differs from the smaller
/// of the mid-January and mid-July offsets (the standard time).
pub open spec fn is_dst_spec(secs: i32, jan: i32, jul: i32) -> bool {
    secs != if jan <= jul {
        jan
    } else {
        jul
    }
}

fn is_dst(secs: i32, jan: i32, jul: i32) -> (r: bool)
    ensures
        r == is_dst_spec(secs, jan, jul),
{
    let std = if jan <= jul {
        jan
    } else {
        jul
    };
    secs != std
}

// ---------------------------------------------------------------------------
// Time zones
// ---------------------------------------------------------------------------

#[verifier::external_type_specification]
#[verifier::external_body]
pub struct ExTz(Tz);

/// Whether the `chrono-tz` database knows a time-zone name.
pub uninterp spec fn zone_known(name: Seq<char>) -> bool;

/// The UTC offset in seconds that the `chrono-tz` database gives the zone
/// named `name` at a local date and hour, where that local time is one
/// instant.
pub uninterp spec fn zone_offset_on(name: Seq<char>, year: i32, month: u32, day: u32, hour: u32) -> Option<
    i32,
>;

/// A time zone of the `chrono-tz` database, with the name it was found by.
pub struct Zone {
    tz: Tz,
    name: Ghost<Seq<char>>,
}

impl Zone {
    /// The name the zone was found by.
    pub closed spec fn name(&self) -> Seq<char> {
        self.name@
    }
}

/// `chrono_tz::Tz::from_str`: the zone of an IANA name. The contract
/// claims that a zone comes back exactly for the names the database knows,
/// and keeps the name with it.
#[verifier::external_body]
fn zone_by_name(name: &str) -> (r: Option<Zone>)
    ensures
        r is Some <==> zone_known(name@),
        r matches Some(z) ==> z.name() == name@,
{
    match name.parse::<Tz>() {
        Ok(tz) => Some(Zone { tz, name: Ghost(name@) }),
        Err(_) => None,
    }
}

/// The abbreviation and UTC offset in seconds that the `chrono-tz`
/// database gives the zone named `name` at the instant `secs` seconds and
/// `nanos` nanoseconds after 1970-01-01 00:00 UTC; `None` where chrono has
/// no date for that timestamp.
pub uninterp spec fn zone_at_instant(name: Seq<char>, secs: i64, nanos: u32) -> Option<
    (Seq<char>, i32),
>;

/// The latest clock reading, in seconds after 1970, that a place is made
/// for: a date some 250 000 years on, well inside chrono's calendar.
pub const CLOCK_MAX_SECS: i64 = 8_000_000_000_000;

/// `chrono::DateTime::from_timestamp` moved into the zone
/// (`DateTime::with_timezone`): the abbreviation there (`format("%Z")`) and
/// the UTC offset in seconds (`offset().fix().local_minus_utc()`). The
/// contract names the result by the zone's name and the instant, claims the
/// bound that every `chrono::FixedOffset` keeps, and that `from_timestamp`
/// gives a date for whole-second parts below a billion nanoseconds and
/// seconds from 0 to `CLOCK_MAX_SECS` (its day count then stays far inside
/// `NaiveDate`'s range).
#[verifier::external_body]
fn zone_at(z: &Zone, secs: i64, nanos: u32) -> (r: Option<(String, i32)>)
    ensures
        r is Some <==> zone_at_instant(z.name(), secs, nanos) is Some,
        r matches Some(x) ==> zone_at_instant(z.name(), secs, nanos) == Some((x.0@, x.1)),
        r matches Some(x) ==> -86_400 < x.1 < 86_400,
        0 <= secs <= CLOCK_MAX_SECS && nanos < 1_000_000_000 ==> r is Some,
{
    match DateTime::from_timestamp(secs, nanos) {
        Some(t) => {
            let local = t.with_timezone(&z.tz);
            Some((local.format("%Z").to_string(), local.offset().fix().local_minus_utc()))
        },
        None => None,
    }
}

/// `TimeZone::with_ymd_and_hms` in the zone, at minute and second zero:
/// the UTC offset in seconds at that local time, where it maps to exactly
/// one instant (`MappedLocalTime::single`). The contract names the result
/// by the zone's name and the date and hour, and claims the bound that
/// every `chrono::FixedOffset` keeps.
#[verifier::external_body]
fn zone_offset_at(z: &Zone, year: i32, month: u32, day: u32, hour: u32) -> (r: Option<i32>)
    ensures
        r == zone_offset_on(z.name(), year, month, day, hour),
        r matches Some(o) ==> -86_400 < o < 86_400,
{
    match z.tz.with_ymd_and_hms(year, month, day, hour, 0, 0).single() {
        Some(t) => Some(t.offset().fix().local_minus_utc()),
        None => None,
    }
}

/// Daylight saving in the zone named `name` at the offset `secs`: the
/// offset differs from the zone's standard one, the smaller of its
/// mid-January and mid-July offsets; off where either is not one instant.
pub open spec fn dst_in(name: Seq<char>, secs: i32) -> bool {
    match (zone_offset_on(name, 2024, 1, 15, 12), zone_offset_on(name, 2024, 7, 15, 12)) {
        (Some(jan), Some(jul)) => is_dst_spec(secs, jan, jul),
        _ => false,
    }
}

// ---------------------------------------------------------------------------
// Places
// ---------------------------------------------------------------------------

/// Enriched reverse-geocoding result. Coordinates are in millionths of a
/// degree.
#[derive(Debug)]
pub struct Place {
    /// City or locality name.
    pub city: String,
    /// Region / state / province full name.
    pub region: String,
    /// ISO 3166-2 region code.
    pub region_code: String,
    /// District / county.
    pub district: String,
    /// ISO 3166-1 alpha-2 country code.
    pub country_code: String,
    /// Full country name.
    pub country_name: String,
    /// Postal / ZIP code.
    pub postal_code: String,
    /// IANA timezone id.
    pub timezone: String,
    /// Timezone abbreviation at the clock reading.
    pub timezone_abbr: String,
    /// UTC offset in seconds at the clock reading.
    pub utc_offset: i32,
    /// Formatted UTC offset (e.g. `UTC+1`).
    pub utc_offset_str: String,
    /// Latitude in millionths of a degree.
    pub latitude_e6: i64,
    /// Longitude in millionths of a degree.
    pub longitude_e6: i64,
    /// ISO 4217 currency code.
    pub currency: String,
    /// Two-letter continent code.
    pub continent_code: String,
    /// Full continent name.
    pub continent_name: String,
    /// EU member state.
    pub is_eu: bool,
    /// DST active at the clock reading.
    pub dst_active: bool,
}

/// The country name of a code (`Unknown` for codes not in the table).
pub open spec fn country_name_spec(code: Seq<char>) -> Seq<char> {
    match country_index(code) {
        Some(i) => countries_spec()[i].1@,
        None => "Unknown"@,
    }
}

/// The currency of a country code (empty for codes not in the table).
pub open spec fn currency_spec(code: Seq<char>) -> Seq<char> {
    match country_index(code) {
        Some(i) => countries_spec()[i].2@,
        None => ""@,
    }
}

/// The continent code of a country code.
pub open spec fn continent_code_spec(code: Seq<char>) -> Seq<char> {
    match country_index(code) {
        Some(i) => cont_code_spec(countries_spec()[i].3),
        None => ""@,
    }
}

/// A place's continent code spells its country's continent field: for a
/// country in the table whose continent is one of the seven, the code is
/// the two letters of that field (BR gives SA, US gives NA), and the name
/// is that continent's.
pub proof fn law_country_continent(code: Seq<char>)
    ensures
        match country_index(code) {
            Some(i) => (exists|j: int|
                0 <= j < continents_spec().len() && #[trigger] continents_spec()[j].0
                    == countries_spec()[i].3) ==> continent_code_spec(code) == code_letters(
                countries_spec()[i].3,
            ) && continent_name_spec(code) == continents_spec()[continent_from(
                countries_spec()[i].3,
                0,
            )->0].2@,
            None => true,
        },
{
    if let Some(i) = country_index(code) {
        law_continent_by_full_code(countries_spec()[i].3);
    }
}

/// The continent name of a country code (`Unknown` where there is none).
pub open spec fn continent_name_spec(code: Seq<char>) -> Seq<char> {
    match country_index(code) {
        Some(i) => match cont_name_spec(countries_spec()[i].3) {
            Some(n) => n,
            None => "Unknown"@,
        },
        None => "Unknown"@,
    }
}

/// Whether a country code is an EU member's.
pub open spec fn is_eu_spec(code: Seq<char>) -> bool {
    match country_index(code) {
        Some(i) => countries_spec()[i].4,
        None => false,
    }
}

/// The fields of a place that its strings and coordinates fix: the strings
/// themselves and the facts of its country.
pub open spec fn place_strings(
    p: Place,
    city: Seq<char>,
    region: Seq<char>,
    region_code: Seq<char>,
    district: Seq<char>,
    cc: Seq<char>,
    postal: Seq<char>,
    timezone: Seq<char>,
    lat: i64,
    lon: i64,
) -> bool {
    &&& p.city@ == city
    &&& p.region@ == region
    &&& p.region_code@ == region_code
    &&& p.district@ == district
    &&& p.country_code@ == cc
    &&& p.country_name@ == country_name_spec(cc)
    &&& p.postal_code@ == postal
    &&& p.timezone@ == timezone
    &&& p.latitude_e6 == lat
    &&& p.longitude_e6 == lon
    &&& p.currency@ == currency_spec(cc)
    &&& p.continent_code@ == continent_code_spec(cc)
    &&& p.continent_name@ == continent_name_spec(cc)
    &&& p.is_eu == is_eu_spec(cc)
}

/// The time-zone fields of a place in the zone named `timezone` at the
/// instant `secs`, `nanos`: the zone's abbreviation and offset there, the
/// offset written out, and daylight saving by the zone's standard offset;
/// empty, `0`, `UTC+0` and no daylight saving for a name the database does
/// not know.
pub open spec fn place_zone(p: Place, timezone: Seq<char>, secs: i64, nanos: u32) -> bool {
    &&& p.utc_offset_str@ == fmt_offset_spec(p.utc_offset as int)
    &&& zone_known(timezone) ==> match zone_at_instant(timezone, secs, nanos) {
        Some(x) => p.timezone_abbr@ == x.0 && p.utc_offset == x.1 && p.dst_active == dst_in(
            timezone,
            x.1,
        ),
        None => false,
    }
    &&& !zone_known(timezone) ==> p.timezone_abbr@ == Seq::<char>::empty() && p.utc_offset == 0
        && !p.dst_active
}

fn owned(s: &str) -> (r: String)
    ensures
        r@ == s@,
{
    s.to_owned()
}

/// Assembles a place from the strings of a hit, the country facts of its
/// code and the given zone facts: abbreviation `abbr`, offset `secs`, and
/// daylight saving where the mid-January and mid-July offsets are both
/// known and `secs` is not the smaller of them.
pub fn place_from(
    city: &str,
    region: &str,
    region_code: &str,
    district: &str,
    cc: &str,
    postal: &str,
    timezone: &str,
    abbr: &str,
    secs: i32,
    jan: Option<i32>,
    jul: Option<i32>,
    latitude: i64,
    longitude: i64,
) -> (p: Place)
    requires
        secs != i32::MIN,
    ensures
        place_strings(p, city@, region@, region_code@, district@, cc@, postal@, timezone@, latitude, longitude),
        p.timezone_abbr@ == abbr@,
        p.utc_offset == secs,
        p.utc_offset_str@ == fmt_offset_spec(secs as int),
        p.dst_active == (jan is Some && jul is Some && is_dst_spec(secs, jan->0, jul->0)),
{
    let dst = match (jan, jul) {
        (Some(j), Some(l)) => is_dst(secs, j, l),
        _ => false,
    };
    let info = country_info(cc);
    let t = countries();
    let (country_name, currency, continent_code, continent_name, is_eu) = match info {
        Some(i) => {
            let e = t[i];
            let cname = match cont_name(e.3) {
                Some(n) => n,
                None => "Unknown",
            };
            (e.1, e.2, cont_code(e.3), cname, e.4)
        },
        None => ("Unknown", "", "", "Unknown", false),
    };
    Place {
        city: owned(city),
        region: owned(region),
        region_code: owned(region_code),
        district: owned(district),
        country_code: owned(cc),
        country_name: owned(country_name),
        postal_code: owned(postal),
        timezone: owned(timezone),
        timezone_abbr: owned(abbr),
        utc_offset: secs,
        utc_offset_str: fmt_offset(secs),
        latitude_e6: latitude,
        longitude_e6: longitude,
        currency: owned(currency),
        continent_code: owned(continent_code),
        continent_name: owned(continent_name),
        is_eu,
        dst_active: dst,
    }
}

/// Assembles a place from the strings of a hit, adding the country facts
/// and the zone's abbreviation, offset and daylight-saving state at the
/// clock reading `now_secs` seconds and `now_nanos` nanoseconds after 1970.
pub fn enrich(
    city: &str,
    region: &str,
    region_code: &str,
    district: &str,
    cc: &str,
    postal: &str,
    timezone: &str,
    latitude: i64,
    longitude: i64,
    now_secs: i64,
    now_nanos: u32,
) -> (p: Place)
    requires
        0 <= now_secs <= CLOCK_MAX_SECS,
        now_nanos < 1_000_000_000,
    ensures
        place_strings(p, city@, region@, region_code@, district@, cc@, postal@, timezone@, latitude, longitude),
        place_zone(p, timezone@, now_secs, now_nanos),
{
    proof {
        reveal_strlit("");
    }
    match zone_by_name(timezone) {
        Some(tz) => {
            let (abbr, secs) = match zone_at(&tz, now_secs, now_nanos) {
                Some(x) => x,
                None => {
                    proof {
                        assert(false);
                    }
                    (String::new(), 0)
                },
            };
            let jan = zone_offset_at(&tz, 2024, 1, 15, 12);
            let jul = zone_offset_at(&tz, 2024, 7, 15, 12);
            let p = place_from(
                city,
                region,
                region_code,
                district,
                cc,
                postal,
                timezone,
                abbr.as_str(),
                secs,
                jan,
                jul,
                latitude,
                longitude,
            );
            assert(zone_at_instant(timezone@, now_secs, now_nanos) == Some((abbr@, secs)));
            p
        },
        None => {
            let p = place_from(
                city,
                region,
                region_code,
                district,
                cc,
                postal,
                timezone,
                "",
                0,
                None,
                None,
                latitude,
                longitude,
            );
            assert(p.timezone_abbr@ == Seq::<char>::empty());
            p
        },
    }
}

} // verus!
