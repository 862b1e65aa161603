use earclip::{earcut, tesselate, Site};

#[test]
fn scattered_points_0() {
    let data: Vec<i32> = vec![-9, 0, -9, -6, -8, 3];
    let holes: Vec<usize> = vec![];
    let expected: Vec<usize> = vec![1, 2, 0];
    assert_eq!(earcut(&data, &holes, 2), expected);
}

#[test]
fn scattered_points_1() {
    let data: Vec<i32> = vec![-4, 7, -6, -8, -1, -1];
    let holes: Vec<usize> = vec![];
    let expected: Vec<usize> = vec![1, 2, 0];
    assert_eq!(earcut(&data, &holes, 2), expected);
}

#[test]
fn scattered_points_2() {
    let data: Vec<i32> = vec![-5, -1, 2, 1, -2, -1, 2, 8, 1, -9, -5, -8, -3, -4, 2, 1, 8, 1, 1, 4, 9, -8];
    let holes: Vec<usize> = vec![10];
    let expected: Vec<usize> = vec![10, 5, 4, 2, 1, 0, 8, 7, 6, 6, 5, 10, 8, 6, 10, 3, 2, 9, 3, 9, 8];
    assert_eq!(earcut(&data, &holes, 2), expected);
}

#[test]
fn scattered_points_3() {
    let data: Vec<i32> = vec![3, 4, -9, 9, -9, 4];
    let holes: Vec<usize> = vec![];
    let expected: Vec<usize> = vec![1, 2, 0];
    assert_eq!(earcut(&data, &holes, 2), expected);
}

#[test]
fn scattered_points_4() {
    let data: Vec<i32> = vec![6, -4, -8, 1, -5, -8, -3, -5, 1, -7, -3, -1, 3, -4, 7, -7];
    let holes: Vec<usize> = vec![7];
    let expected: Vec<usize> = vec![5, 6, 0, 1, 2, 3, 7, 3, 4, 5, 0, 1, 1, 3, 7, 4, 5, 1];
    assert_eq!(earcut(&data, &holes, 2), expected);
}

#[test]
fn scattered_points_5() {
    let data: Vec<i32> = vec![8, -7, 3, -6, 1, 0, 7, -6, 6, -8, -4, 7, 4, 6, 5, 1, -3, 6];
    let holes: Vec<usize> = vec![];
    let expected: Vec<usize> = vec![1, 0, 8, 8, 7, 6, 5, 4, 3, 3, 2, 1, 8, 6, 5, 1, 8, 5];
    assert_eq!(earcut(&data, &holes, 2), expected);
}

#[test]
fn scattered_points_6() {
    let data: Vec<i32> = vec![9, 6, 7, 0, -6, 0, -8, -3];
    let holes: Vec<usize> = vec![];
    let expected: Vec<usize> = vec![1, 0, 3];
    assert_eq!(earcut(&data, &holes, 2), expected);
}

#[test]
fn scattered_points_7() {
    let data: Vec<i32> = vec![9, -5, 1, 4, 4, -3, -3, 3, 7, -7, 9, 1, -7, 6, -2, 0];
    let holes: Vec<usize> = vec![];
    let expected: Vec<usize> = vec![6, 7, 0, 0, 1, 2, 2, 3, 4, 4, 5, 6, 0, 2, 4];
    assert_eq!(earcut(&data, &holes, 2), expected);
}

#[test]
fn scattered_points_8() {
    let data: Vec<i32> = vec![7, -2, 0, -9, 1, 4, 4, 3, 6, -1, 4, -8];
    let holes: Vec<usize> = vec![4];
    let expected: Vec<usize> = vec![3, 2, 1, 1, 0, 3];
    assert_eq!(earcut(&data, &holes, 2), expected);
}

#[test]
fn scattered_points_9() {
    let data: Vec<i32> = vec![9, -9, 0, -8, -4, -9, 0, 2, 9, 3, 5, 9, -5, -8, -1, -1, -2, -9];
    let holes: Vec<usize> = vec![];
    let expected: Vec<usize> = vec![7, 8, 0, 0, 1, 2, 3, 4, 5, 5, 6, 0];
    assert_eq!(earcut(&data, &holes, 2), expected);
}

#[test]
fn scattered_points_10() {
    let data: Vec<i32> = vec![-7, -2, 8, -1, 2, 0, -9, 9, -3, -7, -3, -7, -7, -8, -8, 8, 3, -8];
    let holes: Vec<usize> = vec![4];
    let expected: Vec<usize> = vec![0, 1, 2, 2, 3, 7, 6, 7, 3, 3, 0, 2, 2, 7, 8, 8, 5, 6];
    assert_eq!(earcut(&data, &holes, 2), expected);
}

#[test]
fn scattered_points_11() {
    let data: Vec<i32> = vec![-2, 1, 1, 0, 9, -3, -7, -6, 4, 0, -3, 8, 6, -9, -6, 6, 6, 8, 2, -3, -6, 9];
    let holes: Vec<usize> = vec![];
    let expected: Vec<usize> = vec![9, 8, 7, 2, 1, 0, 0, 10, 7, 2, 0, 6, 4, 3, 2, 5, 4, 2];
    assert_eq!(earcut(&data, &holes, 2), expected);
}

#[test]
fn scattered_points_12() {
    let data: Vec<i32> = vec![3, -6, 6, -2, 5, 1, -9, 7, 4, -3, -7, 1, -7, 2];
    let holes: Vec<usize> = vec![6];
    let expected: Vec<usize> = vec![4, 5, 0, 1, 2, 3, 4, 0, 1, 1, 3, 4];
    assert_eq!(earcut(&data, &holes, 2), expected);
}

#[test]
fn scattered_points_13() {
    let data: Vec<i32> = vec![6, -5, 2, -5, -7, -6];
    let holes: Vec<usize> = vec![];
    let expected: Vec<usize> = vec![1, 2, 0];
    assert_eq!(earcut(&data, &holes, 2), expected);
}

#[test]
fn star_of_7_vertices() {
    let data: Vec<i32> = vec![813, 0, 590, 740, -111, 486, -586, 282, -376, -181, -71, -313, 337, -423];
    let holes: Vec<usize> = vec![];
    let expected: Vec<usize> = vec![5, 6, 0, 0, 1, 2, 2, 3, 4, 4, 5, 0, 0, 2, 4];
    assert_eq!(earcut(&data, &holes, 2), expected);
}

#[test]
fn star_of_20_vertices() {
    let data: Vec<i32> = vec![660, 0, 712, 231, 545, 396, 490, 674, 69, 211, 0, 574, -176, 543, -504, 693, -665, 483, -230, 75, -459, 0, -884, -287, -470, -342, -467, -643, -70, -214, 0, -469, 297, -913, 384, -529, 181, -132, 659, -214];
    let holes: Vec<usize> = vec![];
    let expected: Vec<usize> = vec![18, 19, 0, 0, 1, 2, 2, 3, 4, 4, 5, 6, 6, 7, 8, 9, 10, 11, 12, 13, 14, 14, 15, 16, 16, 17, 18, 18, 0, 2, 4, 6, 8, 9, 11, 12, 14, 16, 18, 18, 2, 4, 4, 8, 9, 9, 12, 14, 14, 18, 4, 4, 9, 14];
    assert_eq!(earcut(&data, &holes, 2), expected);
}

#[test]
fn star_of_85_vertices() {
    let data: Vec<i32> = vec![599, 0, 842, 62, 631, 94, 399, 90, 771, 235, 867, 336, 508, 241, 222, 126, 586, 394, 653, 512, 293, 267, 411, 434, 501, 615, 468, 670, 401, 675, 419, 841, 264, 645, 226, 694, 108, 439, 165, 983, 22, 233, 4, 200, -53, 961, -40, 308, -116, 565, -94, 331, -125, 340, -164, 363, -244, 448, -317, 491, -415, 549, -610, 694, -437, 429, -187, 158, -621, 451, -322, 200, -438, 228, -277, 119, -666, 230, -962, 255, -384, 72, -314, 35, -471, 17, -415, -15, -890, -99, -874, -163, -592, -157, -246, -85, -478, -206, -336, -175, -231, -143, -238, -173, -666, -563, -443, -435, -350, -398, -582, -770, -442, -686, -363, -666, -223, -493, -313, -854, -193, -678, -65, -316, -128, -988, -27, -491, 17, -923, 80, -866, 97, -580, 224, -914, 220, -676, 248, -607, 109, -219, 431, -726, 478, -684, 245, -301, 251, -265, 690, -629, 658, -516, 697, -468, 767, -436, 662, -315, 609, -236, 225, -68, 757, -171, 521, -78, 570, -42, -40, -40, 40, -40, 40, 40, -40, 40];
    let holes: Vec<usize> = vec![85];
    let expected: Vec<usize> = vec![44, 85, 88, 86, 85, 44, 44, 45, 46, 47, 48, 49, 51, 52, 53, 54, 55, 56, 56, 57, 58, 58, 59, 60, 61, 62, 63, 63, 64, 65, 66, 67, 68, 68, 69, 70, 70, 71, 72, 74, 75, 76, 77, 78, 79, 79, 80, 81, 81, 82, 83, 83, 84, 0, 0, 1, 2, 3, 4, 5, 5, 6, 7, 7, 8, 9, 10, 11, 12, 12, 13, 14, 14, 15, 16, 16, 17, 18, 18, 19, 20, 21, 22, 23, 23, 24, 25, 27, 28, 29, 30, 31, 32, 33, 34, 35, 35, 36, 37, 37, 38, 39, 41, 42, 43, 43, 44, 88, 44, 46, 47, 47, 49, 50, 51, 53, 54, 54, 56, 58, 58, 60, 61, 61, 63, 65, 66, 68, 70, 70, 72, 73, 74, 76, 77, 77, 79, 81, 81, 83, 0, 0, 2, 3, 3, 5, 7, 7, 9, 10, 10, 12, 14, 14, 16, 18, 21, 23, 25, 27, 29, 30, 30, 32, 33, 33, 35, 37, 37, 39, 40, 41, 43, 88, 86, 44, 47, 51, 54, 58, 61, 65, 66, 70, 73, 74, 74, 77, 81, 81, 0, 3, 7, 10, 14, 14, 18, 20, 21, 25, 26, 27, 30, 33, 33, 37, 40, 40, 41, 88, 86, 47, 50, 50, 51, 58, 61, 66, 70, 70, 74, 81, 81, 3, 7, 7, 14, 20, 21, 26, 27, 33, 40, 88, 86, 50, 58, 61, 70, 81, 81, 7, 20, 21, 27, 33, 33, 88, 87, 86, 58, 61, 81, 20, 21, 21, 33, 87, 86, 61, 81, 81, 21, 87, 87, 86, 81];
    assert_eq!(earcut(&data, &holes, 2), expected);
}

#[test]
fn star_of_120_vertices() {
    let data: Vec<i32> = vec![532, 0, 750, 39, 491, 52, 612, 97, 671, 143, 435, 116, 190, 62, 717, 275, 289, 129, 678, 345, 331, 191, 319, 207, 257, 187, 243, 197, 204, 183, 655, 655, 344, 382, 353, 436, 185, 254, 287, 442, 378, 655, 136, 267, 375, 842, 238, 619, 210, 646, 85, 318, 189, 889, 76, 477, 66, 626, 14, 274, 0, 329, -17, 320, -66, 625, -112, 705, -110, 515, -195, 727, -188, 578, -159, 415, -336, 755, -394, 773, -480, 832, -109, 169, -198, 273, -563, 695, -276, 306, -234, 234, -257, 232, -272, 220, -527, 383, -793, 515, -232, 134, -623, 317, -602, 268, -555, 213, -853, 277, -290, 78, -899, 191, -791, 125, -531, 56, -345, 18, -837, 0, -532, -28, -312, -33, -870, -138, -207, -44, -889, -238, -893, -290, -361, -139, -565, -252, -598, -305, -680, -392, -680, -442, -723, -525, -727, -588, -661, -596, -619, -619, -154, -171, -546, -674, -239, -329, -371, -572, -314, -543, -102, -200, -322, -723, -292, -762, -97, -298, -184, -686, -44, -205, -100, -630, -65, -623, -52, -986, 0, -883, 13, -239, 40, -377, 128, -810, 195, -917, 66, -246, 266, -820, 264, -688, 222, -498, 294, -576, 394, -682, 306, -470, 300, -413, 437, -540, 512, -569, 642, -642, 621, -559, 489, -396, 659, -478, 527, -342, 232, -134, 246, -125, 622, -277, 206, -79, 384, -125, 830, -222, 425, -90, 261, -41, 444, -47, 626, -33, -40, -40, 40, -40, 40, 40, -40, 40];
    let holes: Vec<usize> = vec![120];
    let expected: Vec<usize> = vec![64, 120, 123, 121, 120, 64, 64, 65, 66, 67, 68, 69, 69, 70, 71, 71, 72, 73, 74, 75, 76, 76, 77, 78, 78, 79, 80, 81, 82, 83, 84, 85, 86, 86, 87, 88, 88, 89, 90, 91, 92, 93, 93, 94, 95, 95, 96, 97, 98, 99, 100, 102, 103, 104, 104, 105, 106, 107, 108, 109, 111, 112, 113, 113, 114, 115, 115, 116, 117, 117, 118, 119, 0, 1, 2, 2, 3, 4, 4, 5, 6, 6, 7, 8, 8, 9, 10, 10, 11, 12, 12, 13, 14, 14, 15, 16, 16, 17, 18, 18, 19, 20, 21, 22, 23, 23, 24, 25, 25, 26, 27, 27, 28, 29, 29, 30, 31, 31, 32, 33, 34, 35, 36, 37, 38, 39, 39, 40, 41, 41, 42, 43, 45, 46, 47, 47, 48, 49, 50, 51, 52, 53, 54, 55, 55, 56, 57, 57, 58, 59, 59, 60, 61, 62, 63, 64, 64, 66, 67, 67, 69, 71, 71, 73, 74, 76, 78, 80, 81, 83, 84, 86, 88, 90, 91, 93, 95, 95, 97, 98, 98, 100, 101, 102, 104, 106, 107, 109, 110, 110, 111, 113, 113, 115, 117, 117, 119, 0, 2, 4, 6, 6, 8, 10, 10, 12, 14, 14, 16, 18, 18, 20, 21, 21, 23, 25, 25, 27, 29, 31, 33, 34, 34, 36, 37, 37, 39, 41, 41, 43, 44, 47, 49, 50, 50, 52, 53, 55, 57, 59, 59, 61, 62, 62, 64, 123, 121, 64, 67, 67, 71, 74, 76, 80, 81, 81, 84, 86, 86, 90, 91, 95, 98, 101, 102, 106, 107, 117, 0, 2, 6, 10, 14, 14, 18, 21, 21, 25, 29, 31, 34, 37, 41, 44, 45, 45, 47, 50, 50, 53, 55, 55, 59, 62, 67, 74, 76, 76, 81, 86, 86, 91, 95, 95, 101, 102, 102, 107, 110, 117, 2, 6, 6, 14, 21, 29, 31, 37, 41, 45, 50, 50, 55, 62, 121, 67, 76, 95, 102, 110, 113, 117, 6, 6, 21, 29, 29, 37, 41, 41, 50, 62, 121, 76, 86, 86, 95, 110, 113, 6, 29, 29, 41, 62, 121, 86, 110, 110, 113, 29, 29, 62, 123, 122, 121, 110, 29, 123, 122, 122, 110, 29];
    assert_eq!(earcut(&data, &holes, 2), expected);
}

#[test]
fn star_of_200_vertices() {
    let data: Vec<i32> = vec![418, 0, 987, 31, 674, 42, 866, 82, 916, 116, 931, 148, 366, 70, 317, 71, 555, 142, 456, 133, 522, 170, 215, 78, 372, 147, 874, 378, 288, 135, 296, 151, 510, 280, 555, 328, 708, 449, 422, 287, 546, 397, 626, 485, 358, 296, 507, 447, 563, 528, 513, 513, 461, 491, 464, 526, 352, 426, 162, 209, 136, 187, 209, 307, 487, 767, 377, 638, 392, 712, 154, 302, 411, 874, 167, 385, 333, 841, 321, 892, 119, 366, 267, 919, 50, 196, 79, 352, 104, 543, 128, 811, 39, 313, 50, 529, 63, 995, 17, 533, 0, 530, -26, 834, -57, 904, -39, 413, -40, 316, -115, 723, -84, 440, -174, 780, -50, 196, -272, 937, -285, 878, -216, 601, -314, 792, -325, 752, -361, 768, -418, 821, -213, 388, -154, 260, -181, 285, -328, 482, -448, 617, -218, 281, -531, 642, -436, 495, -412, 439, -502, 502, -534, 502, -607, 535, -595, 492, -278, 216, -565, 410, -215, 146, -402, 255, -264, 156, -366, 201, -658, 335, -629, 296, -273, 118, -698, 276, -867, 312, -445, 145, -915, 266, -324, 83, -759, 170, -435, 83, -717, 114, -807, 102, -423, 40, -806, 51, -238, 7, -577, 0, -762, -24, -441, -28, -674, -64, -873, -110, -877, -139, -735, -140, -766, -171, -882, -227, -675, -196, -639, -208, -801, -288, -400, -158, -202, -87, -372, -175, -651, -332, -523, -288, -578, -342, -361, -229, -388, -264, -724, -526, -535, -415, -656, -543, -437, -385, -183, -172, -537, -537, -398, -424, -604, -685, -136, -164, -317, -409, -351, -483, -321, -472, -123, -194, -339, -572, -202, -368, -444, -872, -195, -414, -266, -615, -286, -723, -323, -898, -196, -602, -126, -432, -73, -285, -134, -601, -130, -681, -102, -647, -28, -223, -57, -605, -57, -900, -21, -660, 0, -700, 27, -854, 19, -308, 86, -914, 40, -318, 65, -412, 138, -725, 53, -237, 194, -757, 87, -299, 107, -328, 243, -675, 298, -753, 189, -436, 127, -270, 243, -477, 419, -762, 383, -648, 412, -649, 419, -617, 121, -167, 382, -492, 199, -240, 382, -433, 510, -543, 543, -543, 243, -229, 684, -603, 603, -498, 555, -430, 513, -373, 610, -415, 616, -391, 195, -115, 270, -148, 707, -360, 538, -253, 294, -127, 817, -324, 887, -319, 934, -303, 875, -254, 782, -201, 301, -67, 236, -45, 236, -37, 793, -100, 398, -38, 397, -25, 471, -15, -40, -40, 40, -40, 40, 40, -40, 40, 60, -10, 90, -10, 75, 20];
    let holes: Vec<usize> = vec![200, 204];
    let expected: Vec<usize> = vec![205, 204, 201, 201, 200, 103, 103, 104, 105, 107, 108, 109, 110, 111, 112, 113, 114, 115, 116, 117, 118, 119, 120, 121, 121, 122, 123, 124, 125, 126, 126, 127, 128, 128, 129, 130, 130, 131, 132, 132, 133, 134, 134, 135, 136, 136, 137, 138, 138, 139, 140, 140, 141, 142, 142, 143, 144, 144, 145, 146, 146, 147, 148, 150, 151, 152, 152, 153, 154, 155, 156, 157, 157, 158, 159, 160, 161, 162, 162, 163, 164, 164, 165, 166, 167, 168, 169, 170, 171, 172, 172, 173, 174, 174, 175, 176, 176, 177, 178, 178, 179, 180, 180, 181, 182, 184, 185, 186, 187, 188, 189, 189, 190, 191, 191, 192, 193, 195, 196, 197, 198, 199, 0, 0, 1, 2, 2, 3, 4, 4, 5, 6, 7, 8, 9, 9, 10, 11, 11, 12, 13, 15, 16, 17, 17, 18, 19, 19, 20, 21, 22, 23, 24, 24, 25, 26, 26, 27, 28, 30, 31, 32, 33, 34, 35, 35, 36, 37, 37, 38, 39, 40, 41, 42, 42, 43, 44, 44, 45, 46, 46, 47, 48, 50, 51, 52, 54, 55, 56, 56, 57, 58, 58, 59, 60, 61, 62, 63, 64, 65, 66, 68, 69, 70, 71, 72, 73, 74, 75, 76, 76, 77, 78, 79, 80, 81, 81, 82, 83, 84, 85, 86, 87, 88, 89, 90, 91, 92, 92, 93, 94, 94, 95, 96, 97, 98, 99, 99, 100, 101, 102, 103, 200, 201, 103, 105, 106, 107, 109, 109, 110, 112, 113, 115, 116, 119, 121, 123, 124, 126, 128, 128, 130, 132, 132, 134, 136, 136, 138, 140, 142, 144, 146, 146, 148, 149, 149, 150, 152, 154, 155, 157, 157, 159, 160, 160, 162, 164, 164, 166, 167, 167, 169, 170, 172, 174, 176, 176, 178, 180, 180, 182, 183, 183, 184, 186, 187, 189, 191, 195, 197, 198, 0, 2, 4, 7, 9, 11, 11, 13, 14, 15, 17, 19, 19, 21, 22, 22, 24, 26, 26, 28, 29, 30, 32, 33, 37, 39, 40, 42, 44, 46, 46, 48, 49, 50, 52, 53, 54, 56, 58, 58, 60, 61, 61, 63, 64, 64, 66, 67, 68, 70, 71, 71, 73, 74, 74, 76, 78, 83, 84, 86, 87, 89, 90, 94, 96, 97, 99, 101, 102, 102, 200, 203, 201, 105, 106, 106, 109, 112, 113, 116, 118, 118, 119, 123, 132, 136, 140, 146, 149, 152, 152, 154, 157, 157, 160, 164, 164, 167, 170, 170, 172, 176, 176, 180, 183, 183, 186, 187, 187, 191, 193, 195, 198, 0, 0, 4, 6, 11, 14, 15, 15, 19, 22, 22, 26, 29, 30, 33, 35, 35, 37, 40, 42, 46, 49, 49, 50, 53, 58, 61, 64, 67, 68, 71, 71, 74, 78, 83, 86, 87, 87, 90, 92, 92, 94, 97, 99, 102, 203, 106, 112, 113, 113, 118, 123, 132, 140, 142, 146, 152, 157, 157, 164, 170, 170, 176, 183, 183, 187, 193, 195, 0, 6, 11, 15, 22, 22, 29, 30, 30, 35, 40, 42, 49, 53, 58, 64, 67, 71, 78, 79, 81, 83, 87, 92, 97, 99, 201, 106, 113, 113, 123, 124, 128, 132, 142, 146, 157, 170, 183, 193, 194, 195, 6, 7, 11, 22, 30, 30, 40, 42, 42, 53, 54, 58, 67, 71, 71, 79, 81, 81, 87, 92, 92, 99, 203, 201, 113, 124, 128, 142, 146, 146, 170, 183, 183, 194, 195, 195, 7, 11, 11, 30, 42, 42, 54, 58, 58, 71, 81, 81, 92, 203, 201, 124, 128, 128, 146, 183, 183, 195, 11, 11, 42, 58, 58, 81, 203, 202, 201, 204, 205, 201, 128, 183, 11, 58, 58, 203, 202, 202, 204, 206, 205, 128, 183, 58, 202, 206, 206, 205, 183, 183, 58, 206];
    assert_eq!(earcut(&data, &holes, 2), expected);
}

#[test]
fn star_of_333_vertices() {
    let data: Vec<i32> = vec![399, 0, 657, 12, 238, 9, 588, 33, 228, 17, 280, 26, 242, 28, 212, 28, 317, 48, 754, 129, 782, 149, 728, 153, 451, 104, 808, 202, 916, 248, 519, 151, 533, 166, 276, 92, 424, 150, 257, 96, 434, 172, 796, 333, 635, 280, 734, 340, 412, 200, 677, 345, 206, 110, 536, 299, 384, 224, 851, 518, 362, 230, 758, 502, 232, 160, 667, 479, 374, 279, 388, 301, 169, 136, 227, 190, 372, 325, 514, 465, 169, 159, 175, 171, 378, 384, 407, 429, 603, 660, 309, 351, 510, 602, 624, 765, 447, 570, 522, 692, 551, 759, 349, 501, 239, 357, 479, 746, 454, 737, 271, 459, 183, 325, 191, 354, 184, 357, 239, 486, 216, 461, 212, 475, 280, 660, 267, 664, 352, 927, 333, 928, 172, 511, 91, 288, 257, 869, 239, 867, 247, 967, 174, 740, 200, 926, 125, 640, 64, 364, 121, 774, 102, 743, 110, 929, 66, 662, 38, 473, 42, 681, 27, 635, 16, 677, 4, 919, -5, 372, -15, 443, -35, 673, -60, 852, -19, 215, -101, 928, -110, 862, -105, 710, -125, 748, -57, 308, -53, 257, -160, 709, -91, 373, -81, 306, -215, 753, -103, 336, -254, 776, -292, 839, -88, 237, -325, 832, -214, 518, -277, 637, -102, 223, -406, 844, -271, 538, -302, 572, -348, 630, -269, 466, -276, 457, -302, 480, -450, 686, -423, 619, -560, 787, -304, 411, -568, 739, -536, 671, -146, 176, -317, 367, -415, 462, -412, 442, -506, 522, -595, 593, -386, 369, -500, 462, -448, 398, -152, 130, -186, 153, -695, 550, -305, 233, -440, 322, -423, 298, -696, 470, -562, 365, -239, 149, -637, 380, -692, 395, -799, 436, -360, 188, -889, 443, -607, 288, -222, 101, -331, 142, -739, 301, -770, 297, -838, 305, -507, 174, -208, 67, -648, 195, -683, 192, -459, 119, -594, 143, -592, 130, -877, 176, -300, 54, -862, 139, -358, 51, -278, 34, -445, 46, -688, 59, -331, 22, -325, 15, -251, 7, -696, 7, -669, -6, -573, -16, -433, -20, -805, -53, -293, -25, -994, -103, -900, -111, -347, -49, -752, -122, -570, -103, -916, -184, -684, -151, -533, -128, -208, -54, -875, -246, -389, -117, -203, -65, -565, -194, -597, -217, -339, -131, -278, -113, -839, -360, -370, -167, -264, -125, -655, -326, -865, -452, -437, -239, -536, -306, -329, -196, -354, -220, -240, -156, -629, -425, -716, -504, -270, -198, -324, -247, -408, -323, -727, -599, -638, -546, -296, -263, -496, -458, -173, -165, -291, -289, -143, -148, -459, -492, -361, -402, -284, -328, -603, -726, -396, -495, -593, -771, -560, -757, -142, -200, -299, -438, -219, -334, -260, -414, -452, -749, -107, -185, -468, -846, -177, -334, -298, -592, -264, -550, -130, -285, -301, -692, -94, -228, -291, -745, -126, -341, -326, -936, -111, -340, -161, -527, -86, -300, -170, -640, -143, -583, -212, -941, -199, -969, -159, -855, -153, -918, -47, -319, -90, -700, -56, -511, -41, -460, -69, -979, -34, -645, -30, -920, -10, -681, 3, -670, 14, -597, 38, -896, 22, -355, 73, -904, 86, -862, 38, -325, 104, -759, 81, -516, 160, -905, 152, -776, 185, -856, 197, -838, 95, -372, 53, -193, 220, -743, 122, -384, 252, -747, 232, -647, 196, -517, 124, -309, 124, -293, 125, -279, 370, -789, 158, -321, 298, -578, 358, -663, 143, -253, 149, -252, 258, -419, 159, -247, 361, -539, 369, -530, 262, -361, 225, -299, 288, -367, 219, -268, 478, -565, 188, -214, 256, -280, 197, -207, 191, -194, 630, -616, 564, -530, 482, -436, 247, -216, 543, -456, 721, -582, 174, -135, 316, -236, 441, -317, 631, -435, 747, -495, 472, -300, 768, -468, 368, -215, 800, -447, 438, -234, 620, -316, 864, -420, 616, -286, 582, -256, 322, -135, 736, -292, 791, -296, 197, -70, 414, -137, 843, -263, 416, -121, 209, -57, 431, -108, 672, -155, 564, -119, 726, -139, 697, -119, 904, -137, 426, -57, 536, -61, 817, -77, 588, -44, 944, -54, 497, -19, 634, -12, -40, -40, 40, -40, 40, 40, -40, 40, 60, -10, 90, -10, 75, 20];
    let holes: Vec<usize> = vec![333, 337];
    let expected: Vec<usize> = vec![338, 337, 334, 176, 177, 178, 178, 179, 180, 180, 181, 182, 183, 184, 185, 187, 188, 189, 190, 191, 192, 193, 194, 195, 195, 196, 197, 197, 198, 199, 202, 203, 204, 205, 206, 207, 207, 208, 209, 209, 210, 211, 212, 213, 214, 214, 215, 216, 217, 218, 219, 220, 221, 222, 222, 223, 224, 224, 225, 226, 227, 228, 229, 229, 230, 231, 231, 232, 233, 233, 234, 235, 235, 236, 237, 237, 238, 239, 240, 241, 242, 242, 243, 244, 245, 246, 247, 247, 248, 249, 249, 250, 251, 251, 252, 253, 253, 254, 255, 256, 257, 258, 258, 259, 260, 260, 261, 262, 262, 263, 264, 264, 265, 266, 266, 267, 268, 268, 269, 270, 272, 273, 274, 274, 275, 276, 278, 279, 280, 280, 281, 282, 284, 285, 286, 286, 287, 288, 288, 289, 290, 291, 292, 293, 293, 294, 295, 295, 296, 297, 298, 299, 300, 300, 301, 302, 303, 304, 305, 305, 306, 307, 307, 308, 309, 310, 311, 312, 312, 313, 314, 315, 316, 317, 317, 318, 319, 319, 320, 321, 322, 323, 324, 324, 325, 326, 327, 328, 329, 329, 330, 331, 331, 332, 0, 0, 1, 2, 2, 3, 4, 4, 5, 6, 8, 9, 10, 10, 11, 12, 12, 13, 14, 15, 16, 17, 17, 18, 19, 19, 20, 21, 22, 23, 24, 24, 25, 26, 26, 27, 28, 28, 29, 30, 30, 31, 32, 32, 33, 34, 34, 35, 36, 37, 38, 39, 41, 42, 43, 43, 44, 45, 45, 46, 47, 48, 49, 50, 50, 51, 52, 52, 53, 54, 54, 55, 56, 56, 57, 58, 58, 59, 60, 61, 62, 63, 63, 64, 65, 65, 66, 67, 67, 68, 69, 69, 70, 71, 71, 72, 73, 74, 75, 76, 76, 77, 78, 79, 80, 81, 82, 83, 84, 85, 86, 87, 88, 89, 90, 91, 92, 93, 94, 95, 96, 97, 98, 99, 99, 100, 101, 102, 103, 104, 104, 105, 106, 106, 107, 108, 109, 110, 111, 113, 114, 115, 115, 116, 117, 117, 118, 119, 120, 121, 122, 123, 124, 125, 126, 127, 128, 130, 131, 132, 132, 133, 134, 134, 135, 136, 137, 138, 139, 139, 140, 141, 141, 142, 143, 145, 146, 147, 147, 148, 149, 150, 151, 152, 153, 154, 155, 155, 156, 157, 157, 158, 159, 160, 161, 162, 163, 164, 165, 165, 166, 167, 167, 168, 169, 169, 170, 171, 171, 172, 173, 174, 333, 336, 334, 333, 174, 174, 175, 176, 176, 178, 180, 180, 182, 183, 183, 185, 186, 187, 189, 190, 190, 192, 193, 193, 195, 197, 197, 199, 200, 201, 202, 204, 209, 211, 212, 212, 214, 216, 217, 219, 220, 222, 224, 226, 229, 231, 233, 235, 237, 239, 239, 240, 242, 242, 244, 245, 245, 247, 249, 249, 251, 253, 253, 255, 256, 256, 258, 260, 260, 262, 264, 264, 266, 268, 274, 276, 277, 277, 278, 280, 280, 282, 283, 284, 286, 288, 288, 290, 291, 291, 293, 295, 295, 297, 298, 298, 300, 302, 307, 309, 310, 312, 314, 315, 315, 317, 319, 319, 321, 322, 322, 324, 326, 326, 327, 329, 329, 331, 0, 4, 6, 7, 7, 8, 10, 12, 14, 15, 19, 21, 22, 22, 24, 26, 26, 28, 30, 32, 34, 36, 36, 37, 39, 41, 43, 45, 45, 47, 48, 48, 50, 52, 52, 54, 56, 58, 60, 61, 61, 63, 65, 67, 69, 71, 71, 73, 74, 74, 76, 78, 79, 81, 82, 85, 87, 88, 88, 90, 91, 94, 96, 97, 99, 101, 102, 102, 104, 106, 106, 108, 109, 113, 115, 117, 117, 119, 120, 120, 122, 123, 123, 125, 126, 126, 128, 129, 129, 130, 132, 132, 134, 136, 137, 139, 141, 141, 143, 144, 144, 145, 147, 147, 149, 150, 150, 152, 153, 153, 155, 157, 157, 159, 160, 160, 162, 163, 165, 167, 169, 171, 173, 174, 174, 176, 180, 183, 186, 187, 190, 193, 197, 200, 201, 204, 209, 212, 216, 217, 220, 222, 222, 226, 227, 229, 233, 235, 235, 239, 242, 242, 245, 249, 256, 260, 264, 264, 268, 270, 272, 274, 277, 280, 283, 284, 291, 295, 298, 298, 302, 303, 307, 310, 312, 319, 322, 326, 326, 329, 0, 2, 4, 7, 7, 10, 12, 12, 15, 17, 19, 22, 26, 26, 30, 32, 36, 39, 40, 41, 45, 48, 61, 65, 67, 67, 71, 74, 74, 78, 79, 79, 82, 84, 84, 85, 88, 88, 91, 93, 94, 97, 99, 106, 109, 111, 112, 113, 117, 120, 123, 126, 129, 132, 136, 137, 141, 144, 144, 147, 150, 150, 153, 157, 160, 163, 165, 165, 169, 171, 171, 174, 336, 334, 174, 180, 183, 187, 190, 200, 204, 205, 209, 216, 217, 222, 227, 229, 229, 235, 242, 242, 249, 253, 253, 256, 264, 264, 270, 271, 280, 284, 288, 288, 291, 298, 298, 303, 305, 305, 307, 312, 319, 326, 0, 7, 12, 17, 26, 32, 36, 41, 48, 52, 58, 61, 67, 74, 79, 84, 88, 93, 94, 94, 99, 102, 106, 111, 112, 112, 117, 120, 120, 126, 129, 129, 136, 137, 137, 144, 150, 150, 157, 160, 165, 171, 336, 334, 180, 183, 183, 190, 197, 197, 200, 205, 209, 217, 222, 222, 229, 242, 242, 253, 264, 264, 271, 272, 277, 280, 288, 298, 305, 312, 319, 0, 2, 7, 17, 19, 40, 41, 52, 56, 58, 67, 67, 74, 84, 88, 94, 102, 106, 112, 120, 129, 137, 150, 150, 160, 165, 334, 183, 197, 197, 205, 207, 222, 242, 264, 264, 272, 277, 277, 288, 298, 298, 312, 315, 315, 319, 2, 7, 19, 26, 40, 52, 56, 67, 84, 88, 88, 102, 106, 106, 120, 129, 129, 150, 165, 334, 197, 207, 209, 222, 264, 264, 277, 298, 315, 2, 7, 7, 26, 36, 40, 56, 67, 88, 106, 129, 129, 165, 336, 334, 207, 209, 209, 264, 298, 298, 315, 7, 36, 40, 67, 88, 129, 336, 334, 209, 298, 298, 7, 36, 36, 67, 88, 88, 336, 335, 335, 334, 337, 338, 334, 298, 298, 36, 88, 88, 335, 337, 339, 338, 298, 88, 337, 339, 339, 298, 88];
    assert_eq!(earcut(&data, &holes, 2), expected);
}

#[test]
fn polygon_in_space() {
    let data: Vec<i32> = vec![0, 0, 1, 40, 0, 2, 40, 30, 3, 20, 10, 4, 0, 30, 5];
    let holes: Vec<usize> = vec![];
    let expected: Vec<usize> = vec![3, 4, 0, 1, 2, 3, 3, 0, 1];
    assert_eq!(earcut(&data, &holes, 3), expected);
}

#[test]
fn star_cut_along_the_grid() {
    let vertices: Vec<i32> = vec![660, 0, 712, 231, 545, 396, 490, 674, 69, 211, 0, 574, -176, 543, -504, 693, -665, 483, -230, 75, -459, 0, -884, -287, -470, -342, -467, -643, -70, -214, 0, -469, 297, -913, 384, -529, 181, -132, 659, -214];
    let mut indices: Vec<usize> = earcut(&vertices, &[], 2);
    let mut sites: Vec<Site> =
        vertices.chunks(2).enumerate().map(|(v, p)| Site { height: p[0], from: v, to: v }).collect();
    tesselate(&mut sites, &mut indices, 256);
    let expected_sites: Vec<(i32, usize, usize)> = vec![(660, 0, 0), (712, 1, 1), (545, 2, 2), (490, 3, 3), (69, 4, 4), (0, 5, 5), (-176, 6, 6), (-504, 7, 7), (-665, 8, 8), (-230, 9, 9), (-459, 10, 10), (-884, 11, 11), (-470, 12, 12), (-467, 13, 13), (-70, 14, 14), (0, 15, 15), (297, 16, 16), (384, 17, 17), (181, 18, 18), (659, 19, 19), (256, 18, 19), (256, 18, 0), (512, 18, 0), (512, 18, 19), (512, 2, 3), (512, 2, 4), (256, 4, 25), (256, 4, 3), (0, 6, 4), (0, 6, 5), (-256, 6, 7), (-256, 6, 8), (-512, 8, 31), (-512, 8, 7), (-256, 9, 10), (-256, 9, 11), (-768, 11, 35), (-768, 11, 10), (-512, 11, 10), (-512, 11, 35), (-256, 14, 12), (-256, 14, 13), (256, 16, 14), (256, 16, 15), (0, 42, 14), (0, 42, 15), (256, 18, 16), (256, 18, 17), (256, 18, 0), (256, 18, 2), (512, 18, 2), (512, 18, 0), (0, 4, 6), (0, 4, 8), (-512, 8, 53), (-512, 8, 6), (-256, 8, 6), (-256, 8, 53), (-256, 9, 11), (-256, 9, 12), (-768, 11, 12), (-768, 11, 58), (-512, 11, 58), (-512, 11, 12), (0, 14, 16), (0, 14, 18), (256, 16, 18), (256, 16, 64), (512, 2, 4), (512, 2, 18), (256, 2, 18), (256, 2, 4), (0, 4, 8), (0, 4, 9), (-512, 8, 9), (-512, 8, 72), (-256, 8, 72), (-256, 8, 9), (-256, 12, 14), (-256, 12, 9), (0, 14, 18), (0, 14, 4), (0, 4, 9), (0, 4, 14)];
    let expected_indices: Vec<usize> = vec![22, 19, 0, 0, 1, 2, 3, 26, 25, 5, 28, 4, 7, 32, 31, 10, 39, 35, 13, 40, 12, 15, 44, 14, 47, 16, 17, 2, 51, 0, 6, 57, 53, 62, 12, 58, 67, 18, 64, 18, 71, 4, 76, 9, 72, 9, 78, 14, 4, 80, 18, 14, 82, 9, 18, 20, 21, 21, 20, 22, 22, 20, 23, 22, 23, 19, 2, 24, 25, 25, 24, 3, 4, 26, 27, 27, 26, 3, 6, 28, 29, 29, 28, 5, 6, 30, 31, 31, 30, 7, 8, 32, 33, 33, 32, 7, 9, 34, 35, 35, 34, 10, 11, 36, 37, 37, 36, 38, 38, 36, 39, 38, 39, 10, 14, 40, 41, 41, 40, 13, 16, 42, 43, 43, 42, 15, 42, 44, 45, 45, 44, 15, 18, 46, 47, 47, 46, 16, 18, 48, 49, 49, 48, 50, 50, 48, 51, 50, 51, 2, 4, 52, 53, 53, 52, 6, 8, 54, 55, 55, 54, 56, 56, 54, 57, 56, 57, 6, 9, 58, 59, 59, 58, 12, 11, 60, 61, 61, 60, 62, 62, 60, 63, 62, 63, 12, 14, 64, 65, 65, 64, 18, 16, 66, 67, 67, 66, 18, 2, 68, 69, 69, 68, 70, 70, 68, 71, 70, 71, 18, 4, 72, 73, 73, 72, 9, 8, 74, 75, 75, 74, 76, 76, 74, 77, 76, 77, 9, 12, 78, 79, 79, 78, 9, 14, 80, 81, 81, 80, 4, 4, 82, 83, 83, 82, 14];
    let listed: Vec<(i32, usize, usize)> = sites.iter().map(|s| (s.height, s.from, s.to)).collect();
    assert_eq!(listed, expected_sites);
    assert_eq!(indices, expected_indices);
}
