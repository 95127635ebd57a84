use sgf::parser::Parser;

#[test]
fn parse1() {
    let text = "(;GM[1])";
    let _ = Parser::new(text).unwrap().parse().unwrap();
}

#[test]
fn parse2() {
    let text = "(;GM[1]AW[ab][bc])";
    let _ = Parser::new(text).unwrap().parse().unwrap();
}

#[test]
fn parse3() {
    let text = "(;GM[1];B[cc])";
    let _ = Parser::new(text).unwrap().parse().unwrap();
}

#[test]
fn parse4() {
    let text = "(;ZZ[aoeu [1k\\]])";
    let _ = Parser::new(text).unwrap().parse().unwrap();
}

#[test]
fn parse5() {
    let text = "(;GM[1](;B[aa];W[ab])(;B[ab];W[ac]))";
    let _ = Parser::new(text).unwrap().parse().unwrap();
}

#[test]
fn parse6() {
    let text = "
(;GM[1]FF[4]CA[UTF-8]AP[CGoban:3]ST[2]
RU[Japanese]SZ[19]KM[0.00]
PW[White]PB[Black]
AW[na][oa][pa][qa][ra][sa][ka][la][ma][ja]
AB[nb][ob][pb][qb][rb][sb][kb][lb][mb][jb]
LB[pa:A][ob:2][pb:B][pc:C][pd:D]
[oa:1][oc:3][ne:9][oe:8][pe:7][qe:6][re:5][se:4]
[nf:15][of:14][pf:13][qf:11][rf:12][sf:10]
[ng:22][og:44][pg:100]
[ka:a][kb:b][kc:c][kd:d][ke:e][kf:f][kg:g]
MA[na][nb][nc]
CR[qa][qb][qc]
TR[sa][sb][sc]
SQ[ra][rb][rc]
)";
    let _ = Parser::new(text).unwrap().parse().unwrap();
}

#[test]
fn parse7() {
    let text = "
(;GM[1]FF[4]CA[UTF-8]AP[Glift]ST[2]
RU[Japanese]SZ[19]KM[0.00]
C[Black to play. There aren't many options
to choose from, but you might be surprised at the answer!]
PW[White]PB[Black]AW[pa][qa][nb][ob][qb][oc][pc][md][pd][ne][oe]
AB[na][ra][mb][rb][lc][qc][ld][od][qd][le][pe][qe][mf][nf][of][pg]
(;B[mc]
	;W[nc]C[White lives.])
(;B[ma]
	(;W[oa]
		;B[nc]
		;W[nd]
		;B[mc]C[White dies.]GB[1])
	(;W[mc]
		(;B[oa]
		;W[nd]
		;B[pb]C[White lives])
		(;B[nd]
			;W[nc]
			;B[oa]C[White dies.]GB[1]))
	(;W[nd]
		;B[mc]
		;W[oa]
		;B[nc]C[White dies.]GB[1]))
(;B[nc]
	;W[mc]C[White lives])
(;B[]C[A default consideration]
	;W[mc]C[White lives easily]))";
    let _ = Parser::new(text).unwrap().parse().unwrap();
}

#[test]
fn parse8() {
    let text = "";
    if let Ok(_) = Parser::new(text).unwrap().parse() {
        panic!();
    }
}

#[test]
fn parse9() {
    let text = "\n";
    if let Ok(_) = Parser::new(text).unwrap().parse() {
        panic!();
    }
}

#[test]
fn parse10() {
    let text = "\x28\x0a\x3b";
    if let Ok(_) = Parser::new(text).unwrap().parse() {
        panic!();
    }
}

#[test]
fn parse11() {
    let text = "(;A[";
    if let Ok(_) = Parser::new(text).unwrap().parse(){
        panic!();
    }
}

#[test]
fn parse12() {
    let text = "(;gm[1])";
    if let Ok(_) = Parser::new(text).unwrap().parse() {
        panic!();
    }
}

#[test]
fn parse13() {
    let text = "(;[1])";
    if let Ok(_) = Parser::new(text).unwrap().parse() {
        panic!();
    }
}
