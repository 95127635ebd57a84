use sgf::scanner::Scanner;

#[test]
fn scanner_scan1() {
    let text = "(;GM[1])";
    let _ = Scanner::new(text).scan().unwrap();
}

#[test]
fn scanner_scan2() {
    let text = "(;GM[1]AW[ab][bc])";
    let _ = Scanner::new(text).scan().unwrap();
}

#[test]
fn scanner_scan3() {
    let text = "(;GM[1];B[cc])";
    let _ = Scanner::new(text).scan().unwrap();
}

#[test]
fn scanner_scan4() {
    let text = "(;ZZ[aoeu [1k\\]])";
    let _ = Scanner::new(text).scan().unwrap();
}

#[test]
fn scanner_scan5() {
    let text = "(;GM[1](;B[aa];W[ab])(;B[ab];W[ac]))";
    let _ = Scanner::new(text).scan().unwrap();
}

#[test]
fn scanner_scan6() {
    let text = "
(;GM[1]FF[4]CA[UTF-8]AP[CGoban:3]ST[2]
RU[Japanese]SZ[19]KM[0.00]
PW[White]PB[Black]
AW[na][oa][pa][qa][ra][sa][ka][la][ma][ja]
AB[nb][ob][pb][qb][rb][sb][kb][lb][mb][jb]
LB[pa:A][ob:2][pb:B][pc:C][pd:D]
[oa:1][oc:3][ne:9][oe:8][pe:7][qe:6][re:5][se:4]
[nf:15][of:14][pf:13][qf:11][rf:12][sf:10]
[ng:22][og:44][pg:100]
[ka:a][kb:b][kc:c][kd:d][ke:e][kf:f][kg:g]
MA[na][nb][nc]
CR[qa][qb][qc]
TR[sa][sb][sc]
SQ[ra][rb][rc]
)";
    let _ = Scanner::new(text).scan().unwrap();
}

#[test]
fn scanner_scan7() {
    let text = "
(;GM[1]FF[4]CA[UTF-8]AP[Glift]ST[2]
RU[Japanese]SZ[19]KM[0.00]
C[Black to play. There aren't many options
to choose from, but you might be surprised at the answer!]
PW[White]PB[Black]AW[pa][qa][nb][ob][qb][oc][pc][md][pd][ne][oe]
AB[na][ra][mb][rb][lc][qc][ld][od][qd][le][pe][qe][mf][nf][of][pg]
(;B[mc]
	;W[nc]C[White lives.])
(;B[ma]
	(;W[oa]
		;B[nc]
		;W[nd]
		;B[mc]C[White dies.]GB[1])
	(;W[mc]
		(;B[oa]
		;W[nd]
		;B[pb]C[White lives])
		(;B[nd]
			;W[nc]
			;B[oa]C[White dies.]GB[1]))
	(;W[nd]
		;B[mc]
		;W[oa]
		;B[nc]C[White dies.]GB[1]))
(;B[nc]
	;W[mc]C[White lives])
(;B[]C[A default consideration]
	;W[mc]C[White lives easily]))";
    let _ = Scanner::new(text).scan().unwrap();
}

#[test]
fn scan8() {
    let text = "
(;GM[1]FF[4]
SZ[19]
GN[]
DT[2024-04-11]
PB[老朽006]
PW[sokka]
BR[5段]
WR[5段]
KM[375]HA[0]RU[Chinese]AP[GNU Go:3.8]RN[3]RE[B+R]TM[1200]TC[3]TT[60]AP[foxwq]RL[0]
;B[pd];W[dd];B[pq];W[dq];B[fc];W[hc];B[cc];W[dc];B[cd];W[de];B[db];W[eb];B[cb];W[fb];B[cf];W[nc];B[qf];W[ne];B[do];W[co];B[cn];W[cp];B[dn];W[fq];B[dj];W[qo];B[op];W[eg];B[ch];W[df];B[cg];W[pg];B[qg];W[pi];B[ob];W[nb];B[pn];W[qm];B[pm];W[ql];B[jg];W[je];B[ri];W[ji];B[ih];W[ej];B[ii];W[dk];B[ek];W[cj];B[di];W[el];B[fk];W[cl];B[fm];W[em];B[fn];W[en];B[eo];W[fl];B[gl];W[gk];B[fj];W[gm];B[hl];W[fo];B[gn];W[bl];B[rp];W[ro];B[qp];W[jq];B[qj];W[pl];B[ok];W[ol];B[nn];W[nk];B[oj];W[nm];B[nj];W[mn];B[no];W[mk];B[lm];W[mm];B[ll];W[mj];B[mi];W[ln];B[kp];W[li];B[mh];W[km];B[kl];W[jl];B[jm];W[kn];B[jk];W[jn];B[hm];W[go];B[ho];W[jp];B[hq];W[im];B[ep];W[gq];B[eq];W[er];B[fr];W[gr];B[dr];W[fs];B[cq];W[bq];B[dp];W[bn];B[cm];W[dl];B[bm];W[bo];B[am];W[cr];B[br];W[dq];B[bj];W[al];B[cq];W[fi];B[ei];W[dq];B[gc];W[gb];B[cq];W[gj];B[ej];W[dq];B[hd];W[ic];B[cq];W[in];B[hn];W[dq];B[ge];W[ec];B[cq];W[ci];B[bi];W[dq];B[ck];W[fp];B[cq];W[cs];B[ak];W[dq];B[bk];W[hf];B[gg];W[gf];B[fg];W[ff];B[hg];W[lf];B[kq];W[lh];B[qk];W[mg];B[pb];W[kk];B[jj];W[ni];B[na];W[ma];B[oa];W[lb];B[if];W[ie];B[il];W[jm];B[kj];W[lk];B[jr];W[ir];B[kr])";
    let _ = Scanner::new(text).scan().unwrap();
}
